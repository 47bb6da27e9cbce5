//! The word database: one Word Table per vocabulary with its two lookup
//! indices, built once from the embedded payloads and read-only thereafter.

use vstd::prelude::*;

use crate::Lang;
use crate::LANG_COUNT;
use crate::lang_index;
use crate::lang_index_spec;
use crate::ext::brotli_ok;
use crate::ext::brotli_plain;
use crate::ext::bytes_to_string;
use crate::ext::char_table_get;
use crate::ext::char_table_insert;
use crate::ext::char_table_view;
use crate::ext::chars_of_str;
use crate::ext::decompress;
use crate::ext::len_table_get;
use crate::ext::len_table_insert;
use crate::ext::len_table_view;
use crate::ext::new_char_table;
use crate::ext::new_len_table;
use crate::ext::random_below;
use crate::ext::utf8_chars;
use crate::ext::utf8_ok;
use crate::index::first_bucket;
use crate::index::first_pred;
use crate::index::len_bucket;
use crate::index::len_pred;
use crate::index::lemma_filter_nonempty;
use crate::index::lemma_filter_push;
use crate::index::lemma_filter_subset;
use crate::text::lemma_words_nonempty;
use crate::text::tokenize;
use crate::text::words_of_text;

verus! {

/// The cached structures of one vocabulary: its Word Table and the two
/// indices derived from it.
struct LangTable {
    words: Vec<String>,
    by_len: ahash::AHashMap<usize, Vec<String>>,
    by_first: ahash::AHashMap<char, Vec<String>>,
}

impl LangTable {
    /// The Word Table as a sequence of character sequences.
    spec fn words_view(self) -> Seq<Seq<char>> {
        self.words.deep_view()
    }

    /// A fully-built table: a non-empty Word Table of non-empty words, and
    /// indices that hold exactly the non-empty buckets of that table.
    spec fn wf(self) -> bool {
        &&& self.words_view().len() > 0
        &&& (forall|i: int|
            0 <= i < self.words_view().len() ==> (#[trigger] self.words_view()[i]).len() > 0)
        &&& (forall|n: int|
            #[trigger] len_table_view(self.by_len).contains_key(n) ==> len_table_view(self.by_len)[n]
                == len_bucket(self.words_view(), n) && len_bucket(self.words_view(), n).len() > 0)
        &&& (forall|n: int|
            0 <= n <= usize::MAX && (#[trigger] len_bucket(self.words_view(), n)).len() > 0
                ==> len_table_view(self.by_len).contains_key(n))
        &&& (forall|c: char|
            #[trigger] char_table_view(self.by_first).contains_key(c) ==> char_table_view(
                self.by_first,
            )[c] == first_bucket(self.words_view(), c) && first_bucket(self.words_view(), c).len()
                > 0)
        &&& (forall|c: char|
            (#[trigger] first_bucket(self.words_view(), c)).len() > 0 ==> char_table_view(
                self.by_first,
            ).contains_key(c))
    }
}

/// Collects the words of exactly `k` characters, in table order.
fn collect_len(words: &Vec<String>, toks: &Vec<Vec<char>>, k: usize) -> (r: Vec<String>)
    requires
        words.deep_view() == toks.deep_view(),
    ensures
        r.deep_view() == len_bucket(toks.deep_view(), k as int),
{
    let ghost w_view = toks.deep_view();
    let mut r: Vec<String> = Vec::new();
    proof {
        reveal(Seq::filter);
        assert(w_view.take(0) =~= Seq::<Seq<char>>::empty());
        assert(r.deep_view() =~= len_bucket(w_view.take(0), k as int));
        assert(words.deep_view().len() == toks.deep_view().len());
        assert(words.deep_view().len() == words@.len());
        assert(toks.deep_view().len() == toks@.len());
        assert(words@.len() == toks@.len());
    }
    let mut j: usize = 0;
    while j < toks.len()
        invariant
            j <= toks.len(),
            words@.len() == toks@.len(),
            words.deep_view() == w_view,
            toks.deep_view() == w_view,
            r.deep_view() == len_bucket(w_view.take(j as int), k as int),
        decreases toks.len() - j,
    {
        proof {
            assert(toks@[j as int].deep_view() =~= toks@[j as int]@);
            assert(w_view.take(j + 1) =~= w_view.take(j as int).push(w_view[j as int]));
            lemma_filter_push(w_view.take(j as int), len_pred(k as int), w_view[j as int]);
        }
        if toks[j].len() == k {
            let w = words[j].clone();
            let ghost old_r = r.deep_view();
            proof {
                assert(w@ == words.deep_view()[j as int]);
            }
            r.push(w);
            proof {
                assert(r.deep_view() =~= old_r.push(w_view[j as int]));
            }
        }
        j += 1;
    }
    proof {
        assert(w_view.take(w_view.len() as int) =~= w_view);
    }
    r
}

/// Collects the words whose first character is `c`, in table order.
fn collect_first(words: &Vec<String>, toks: &Vec<Vec<char>>, c: char) -> (r: Vec<String>)
    requires
        words.deep_view() == toks.deep_view(),
    ensures
        r.deep_view() == first_bucket(toks.deep_view(), c),
{
    let ghost w_view = toks.deep_view();
    let mut r: Vec<String> = Vec::new();
    proof {
        reveal(Seq::filter);
        assert(w_view.take(0) =~= Seq::<Seq<char>>::empty());
        assert(r.deep_view() =~= first_bucket(w_view.take(0), c));
        assert(words.deep_view().len() == toks.deep_view().len());
        assert(words.deep_view().len() == words@.len());
        assert(toks.deep_view().len() == toks@.len());
        assert(words@.len() == toks@.len());
    }
    let mut j: usize = 0;
    while j < toks.len()
        invariant
            j <= toks.len(),
            words@.len() == toks@.len(),
            words.deep_view() == w_view,
            toks.deep_view() == w_view,
            r.deep_view() == first_bucket(w_view.take(j as int), c),
        decreases toks.len() - j,
    {
        proof {
            assert(toks@[j as int].deep_view() =~= toks@[j as int]@);
            assert(w_view.take(j + 1) =~= w_view.take(j as int).push(w_view[j as int]));
            lemma_filter_push(w_view.take(j as int), first_pred(c), w_view[j as int]);
        }
        if toks[j].len() > 0 {
            let first = toks[j][0];
            if first == c {
                let w = words[j].clone();
                let ghost old_r = r.deep_view();
                proof {
                    assert(w@ == words.deep_view()[j as int]);
                }
                r.push(w);
                proof {
                    assert(r.deep_view() =~= old_r.push(w_view[j as int]));
                }
            }
        }
        j += 1;
    }
    proof {
        assert(w_view.take(w_view.len() as int) =~= w_view);
    }
    r
}

/// Builds the cached structures of one vocabulary from its decompressed
/// text: the Word Table and both indices. Fails exactly when the text holds
/// no word at all.
fn build_table(text: &Vec<char>) -> (r: Option<LangTable>)
    ensures
        match r {
            Some(t) => t.wf() && t.words_view() == words_of_text(text@),
            None => words_of_text(text@).len() == 0,
        },
{
    let (words, toks) = tokenize(text);
    proof {
        lemma_words_nonempty(text@);
    }
    let ghost w_view = toks.deep_view();
    proof {
        assert(words.deep_view().len() == toks.deep_view().len());
        assert(words@.len() == toks@.len());
    }
    if words.len() == 0 {
        return None;
    }
    let mut by_len = new_len_table();
    let mut i: usize = 0;
    while i < toks.len()
        invariant
            i <= toks.len(),
            toks.deep_view() == w_view,
            words.deep_view() == w_view,
            w_view == words_of_text(text@),
            forall|j: int| 0 <= j < w_view.len() ==> (#[trigger] w_view[j]).len() > 0,
            words@.len() == toks@.len(),
            forall|n: int|
                #[trigger] len_table_view(by_len).contains_key(n) ==> len_table_view(by_len)[n]
                    == len_bucket(w_view, n) && len_bucket(w_view, n).len() > 0,
            forall|j: int|
                0 <= j < i ==> len_table_view(by_len).contains_key(
                    (#[trigger] w_view[j]).len() as int,
                ),
        decreases toks.len() - i,
    {
        proof {
            assert(toks@[i as int].deep_view() =~= toks@[i as int]@);
        }
        let k = toks[i].len();
        proof {
            assert(w_view[i as int].len() == k);
        }
        match len_table_get(&by_len, k) {
            Some(_) => {},
            None => {
                let bucket = collect_len(&words, &toks, k);
                proof {
                    lemma_filter_nonempty(w_view, len_pred(k as int));
                    assert(len_pred(k as int)(w_view[i as int]));
                    assert(len_bucket(w_view, k as int).len() > 0);
                }
                len_table_insert(&mut by_len, k, bucket);
            },
        }
        i += 1;
    }
    proof {
        assert forall|n: int|
            0 <= n <= usize::MAX && (#[trigger] len_bucket(w_view, n)).len()
                > 0 implies len_table_view(by_len).contains_key(n) by {
            lemma_filter_nonempty(w_view, len_pred(n));
            let j = choose|j: int| 0 <= j < w_view.len() && len_pred(n)(w_view[j]);
            assert(w_view[j].len() == n);
        }
    }
    let mut by_first = new_char_table();
    let mut i2: usize = 0;
    while i2 < toks.len()
        invariant
            i2 <= toks.len(),
            toks.deep_view() == w_view,
            words.deep_view() == w_view,
            w_view == words_of_text(text@),
            forall|j: int| 0 <= j < w_view.len() ==> (#[trigger] w_view[j]).len() > 0,
            words@.len() == toks@.len(),
            forall|c: char|
                #[trigger] char_table_view(by_first).contains_key(c) ==> char_table_view(by_first)[c]
                    == first_bucket(w_view, c) && first_bucket(w_view, c).len() > 0,
            forall|j: int|
                0 <= j < i2 ==> char_table_view(by_first).contains_key((#[trigger] w_view[j])[0]),
        decreases toks.len() - i2,
    {
        proof {
            assert(toks@[i2 as int].deep_view() =~= toks@[i2 as int]@);
            assert(w_view[i2 as int].len() > 0);
            assert(toks@[i2 as int]@.len() > 0);
        }
        let c0 = toks[i2][0];
        proof {
            assert(w_view[i2 as int][0] == c0);
        }
        match char_table_get(&by_first, c0) {
            Some(_) => {},
            None => {
                let bucket = collect_first(&words, &toks, c0);
                proof {
                    lemma_filter_nonempty(w_view, first_pred(c0));
                    assert(first_pred(c0)(w_view[i2 as int]));
                    assert(first_bucket(w_view, c0).len() > 0);
                }
                char_table_insert(&mut by_first, c0, bucket);
            },
        }
        i2 += 1;
    }
    proof {
        assert forall|c: char|
            (#[trigger] first_bucket(w_view, c)).len() > 0 implies char_table_view(
            by_first,
        ).contains_key(c) by {
            lemma_filter_nonempty(w_view, first_pred(c));
            let j = choose|j: int| 0 <= j < w_view.len() && first_pred(c)(w_view[j]);
            assert(w_view[j][0] == c);
        }
    }
    Some(LangTable { words, by_len, by_first })
}

/// The word database: the Word Tables of the fixed vocabulary set, each with
/// its Length Index and Starting-Character Index. Built once; every query
/// reads the same immutable structures.
pub struct WordDb {
    tables: Vec<LangTable>,
}

impl WordDb {
    /// Well-formedness: one fully-built table per vocabulary.
    pub closed spec fn wf(self) -> bool {
        &&& self.tables@.len() == LANG_COUNT
        &&& (forall|k: int| 0 <= k < self.tables@.len() ==> (#[trigger] self.tables@[k]).wf())
    }

    /// The Word Table of one vocabulary, as a sequence of character
    /// sequences.
    pub closed spec fn words_of(self, lang: Lang) -> Seq<Seq<char>> {
        self.tables@[lang_index_spec(lang)].words_view()
    }

    /// Builds the database from one decompressed text blob per vocabulary,
    /// in the order the vocabularies are numbered. Fails exactly when the
    /// blob count is wrong or some vocabulary yields no word at all.
    pub fn from_texts(texts: Vec<String>) -> (r: Option<WordDb>)
        ensures
            match r {
                Some(db) => {
                    &&& db.wf()
                    &&& texts@.len() == LANG_COUNT
                    &&& forall|lang: Lang|
                        #[trigger] db.words_of(lang) == words_of_text(
                            texts@[lang_index_spec(lang)]@,
                        )
                    &&& forall|k: int|
                        0 <= k < texts@.len() ==> words_of_text((#[trigger] texts@[k])@).len() > 0
                },
                None => texts@.len() != LANG_COUNT || exists|k: int|
                    0 <= k < texts@.len() && words_of_text((#[trigger] texts@[k])@).len() == 0,
            },
    {
        if texts.len() != LANG_COUNT {
            return None;
        }
        let mut tables: Vec<LangTable> = Vec::new();
        let mut k: usize = 0;
        while k < texts.len()
            invariant
                k <= texts@.len(),
                texts@.len() == LANG_COUNT,
                tables@.len() == k,
                forall|j: int|
                    0 <= j < k ==> (#[trigger] tables@[j]).wf() && tables@[j].words_view()
                        == words_of_text(texts@[j]@),
            decreases texts@.len() - k,
        {
            let cs = chars_of_str(texts[k].as_str());
            match build_table(&cs) {
                Some(t) => tables.push(t),
                None => {
                    return None;
                },
            }
            k += 1;
        }
        proof {
            assert forall|j: int| 0 <= j < texts@.len() implies words_of_text(
                (#[trigger] texts@[j])@,
            ).len() > 0 by {
                assert(tables@[j].wf());
                assert(tables@[j].words_view() == words_of_text(texts@[j]@));
            }
        }
        Some(WordDb { tables })
    }

    /// Builds the database from one compressed payload per vocabulary:
    /// decompresses each, decodes it as UTF-8 text, and builds the tables.
    /// Fails exactly when the payload count is wrong, a payload is not a
    /// well-formed brotli stream, its decompressed bytes are not valid
    /// UTF-8, or some vocabulary yields no word at all; no partial data is
    /// ever handed out.
    pub fn from_payloads(payloads: &Vec<Vec<u8>>) -> (r: Option<WordDb>)
        ensures
            r matches Some(db) ==> {
                &&& db.wf()
                &&& payloads@.len() == LANG_COUNT
                &&& forall|lang: Lang|
                    #[trigger] db.words_of(lang) == words_of_text(
                        utf8_chars(brotli_plain(payloads@[lang_index_spec(lang)]@)),
                    )
            },
            r is None <==> payloads@.len() != LANG_COUNT || exists|k: int|
                0 <= k < payloads@.len() && (!brotli_ok((#[trigger] payloads@[k])@) || !utf8_ok(
                    brotli_plain(payloads@[k]@),
                ) || words_of_text(utf8_chars(brotli_plain(payloads@[k]@))).len() == 0),
    {
        if payloads.len() != LANG_COUNT {
            return None;
        }
        let mut texts: Vec<String> = Vec::new();
        let mut k: usize = 0;
        while k < payloads.len()
            invariant
                k <= payloads@.len(),
                payloads@.len() == LANG_COUNT,
                texts@.len() == k,
                forall|j: int|
                    0 <= j < k ==> (#[trigger] texts@[j])@ == utf8_chars(
                        brotli_plain(payloads@[j]@),
                    ),
                forall|j: int|
                    0 <= j < k ==> brotli_ok((#[trigger] payloads@[j])@) && utf8_ok(
                        brotli_plain(payloads@[j]@),
                    ),
            decreases payloads@.len() - k,
        {
            let plain = match decompress(&payloads[k]) {
                Some(v) => v,
                None => {
                    proof {
                        assert(0 <= k < payloads@.len() && !brotli_ok(payloads@[k as int]@));
                    }
                    return None;
                },
            };
            let text = match bytes_to_string(plain) {
                Some(s) => s,
                None => {
                    proof {
                        assert(0 <= k < payloads@.len() && !utf8_ok(
                            brotli_plain(payloads@[k as int]@),
                        ));
                    }
                    return None;
                },
            };
            texts.push(text);
            k += 1;
        }
        let ghost texts_view = texts@;
        let result = WordDb::from_texts(texts);
        proof {
            if result is Some {
                assert forall|j: int| 0 <= j < payloads@.len() implies brotli_ok(
                    (#[trigger] payloads@[j])@,
                ) && utf8_ok(brotli_plain(payloads@[j]@)) && words_of_text(
                    utf8_chars(brotli_plain(payloads@[j]@)),
                ).len() > 0 by {
                    assert(words_of_text(texts_view[j]@).len() > 0);
                    assert(texts_view[j]@ == utf8_chars(brotli_plain(payloads@[j]@)));
                }
            } else {
                let j = choose|j: int|
                    0 <= j < texts_view.len() && words_of_text(
                        (#[trigger] texts_view[j])@,
                    ).len() == 0;
                assert(0 <= j < payloads@.len() && words_of_text(
                    utf8_chars(brotli_plain(payloads@[j]@)),
                ).len() == 0);
            }
        }
        result
    }

    /// The full Word Table for a vocabulary: never empty, and every entry a
    /// non-empty word.
    pub fn all(&self, lang: Lang) -> (r: &Vec<String>)
        requires
            self.wf(),
        ensures
            r.deep_view() == self.words_of(lang),
            r@.len() > 0,
            forall|i: int| 0 <= i < r.deep_view().len() ==> (#[trigger] r.deep_view()[i]).len() > 0,
    {
        let i = lang_index(lang);
        &self.tables[i].words
    }

    /// A uniformly chosen word from a vocabulary's Word Table.
    pub fn get(&self, lang: Lang) -> (r: &String)
        requires
            self.wf(),
        ensures
            self.words_of(lang).contains(r@),
            r@.len() > 0,
    {
        let words = self.all(lang);
        let i = random_below(words.len());
        let w = &words[i];
        proof {
            assert(words.deep_view()[i as int] == w@);
            assert(self.words_of(lang).contains(w@)) by {
                assert(self.words_of(lang)[i as int] == w@);
            }
        }
        w
    }

    /// The Length Index bucket for `len`: every word of exactly that
    /// character count, in a fixed order, or nothing when no word has that
    /// count.
    pub fn all_len(&self, len: usize, lang: Lang) -> (r: Option<&Vec<String>>)
        requires
            self.wf(),
        ensures
            match r {
                Some(v) => v.deep_view() == len_bucket(self.words_of(lang), len as int) && v@.len()
                    > 0,
                None => len_bucket(self.words_of(lang), len as int).len() == 0,
            },
    {
        let i = lang_index(lang);
        len_table_get(&self.tables[i].by_len, len)
    }

    /// A uniformly chosen word of exactly `len` characters, or nothing when
    /// no word has that count.
    pub fn get_len(&self, len: usize, lang: Lang) -> (r: Option<&String>)
        requires
            self.wf(),
        ensures
            match r {
                Some(w) => len_bucket(self.words_of(lang), len as int).len() > 0
                    && self.words_of(lang).contains(w@) && w@.len() == len,
                None => len_bucket(self.words_of(lang), len as int).len() == 0,
            },
    {
        match self.all_len(len, lang) {
            Some(bucket) => {
                let i = random_below(bucket.len());
                let w = &bucket[i];
                proof {
                    let ws = self.words_of(lang);
                    let b = len_bucket(ws, len as int);
                    assert(bucket.deep_view()[i as int] == w@);
                    assert(b[i as int] == w@);
                    ws.lemma_filter_pred(len_pred(len as int), i as int);
                    assert(b.contains(w@)) by {
                        assert(b[i as int] == w@);
                    }
                    lemma_filter_subset(ws, len_pred(len as int));
                    assert(ws.contains(w@));
                }
                Some(w)
            },
            None => None,
        }
    }

    /// The Starting-Character Index bucket for `char`: every word beginning
    /// with that character, in a fixed order, or nothing when no word does.
    pub fn all_starts_with(&self, char: char, lang: Lang) -> (r: Option<&Vec<String>>)
        requires
            self.wf(),
        ensures
            match r {
                Some(v) => v.deep_view() == first_bucket(self.words_of(lang), char) && v@.len()
                    > 0,
                None => first_bucket(self.words_of(lang), char).len() == 0,
            },
    {
        let i = lang_index(lang);
        char_table_get(&self.tables[i].by_first, char)
    }

    /// A uniformly chosen word beginning with `char`, or nothing when no
    /// word does.
    pub fn get_starts_with(&self, char: char, lang: Lang) -> (r: Option<&String>)
        requires
            self.wf(),
        ensures
            match r {
                Some(w) => first_bucket(self.words_of(lang), char).len() > 0
                    && self.words_of(lang).contains(w@) && w@.len() > 0 && w@[0] == char,
                None => first_bucket(self.words_of(lang), char).len() == 0,
            },
    {
        match self.all_starts_with(char, lang) {
            Some(bucket) => {
                let i = random_below(bucket.len());
                let w = &bucket[i];
                proof {
                    let ws = self.words_of(lang);
                    let b = first_bucket(ws, char);
                    assert(bucket.deep_view()[i as int] == w@);
                    assert(b[i as int] == w@);
                    ws.lemma_filter_pred(first_pred(char), i as int);
                    assert(b.contains(w@)) by {
                        assert(b[i as int] == w@);
                    }
                    lemma_filter_subset(ws, first_pred(char));
                    assert(ws.contains(w@));
                }
                Some(w)
            },
            None => None,
        }
    }
}

/// Every word of a vocabulary's table appears in the Length Index bucket for
/// its character count and in the Starting-Character Index bucket for its
/// first character.
pub proof fn lemma_word_in_index_buckets(db: WordDb, lang: Lang, i: int)
    requires
        db.wf(),
        0 <= i < db.words_of(lang).len(),
    ensures
        db.words_of(lang)[i].len() > 0,
        len_bucket(db.words_of(lang), db.words_of(lang)[i].len() as int).contains(
            db.words_of(lang)[i],
        ),
        first_bucket(db.words_of(lang), db.words_of(lang)[i][0]).contains(db.words_of(lang)[i]),
{
    crate::index::lemma_word_in_buckets(db.words_of(lang), i);
}

/// Partition law at the database: over any duplicate-free key list that
/// covers every word's character count, the Length Index buckets of a
/// vocabulary sum, as multisets, to exactly its Word Table; likewise for the
/// Starting-Character Index over a key list covering every first character.
pub proof fn lemma_index_partition(db: WordDb, lang: Lang, lens: Seq<int>, firsts: Seq<char>)
    requires
        db.wf(),
        lens.no_duplicates(),
        forall|i: int|
            0 <= i < db.words_of(lang).len() ==> lens.contains(
                #[trigger] db.words_of(lang)[i].len() as int,
            ),
        firsts.no_duplicates(),
        forall|i: int|
            0 <= i < db.words_of(lang).len() ==> firsts.contains(
                (#[trigger] db.words_of(lang)[i])[0],
            ),
    ensures
        crate::index::len_buckets_union(db.words_of(lang), lens) == db.words_of(
            lang,
        ).to_multiset(),
        crate::index::first_buckets_union(db.words_of(lang), firsts) == db.words_of(
            lang,
        ).to_multiset(),
{
    crate::index::lemma_len_partition(db.words_of(lang), lens);
    assert forall|i: int| 0 <= i < db.words_of(lang).len() implies (#[trigger] db.words_of(
        lang,
    )[i]).len() > 0 by {
        lemma_word_in_index_buckets(db, lang, i);
    }
    crate::index::lemma_first_partition(db.words_of(lang), firsts);
}

/// The result of `all` is a function of the database and the vocabulary
/// alone: any two calls on the same database see one and the same table.
pub proof fn lemma_all_idempotent(db: WordDb, lang: Lang, r1: Seq<Seq<char>>, r2: Seq<Seq<char>>)
    requires
        r1 == db.words_of(lang),
        r2 == db.words_of(lang),
    ensures
        r1 == r2,
{
}

} // verus!
