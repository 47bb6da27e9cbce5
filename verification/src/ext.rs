//! The trusted boundary of the library: every call into an outside crate, or
//! into a part of std that vstd gives no specification, stands here behind a
//! contract, together with the declarations of the outside types involved.

use vstd::prelude::*;

verus! {

// ---------------------------------------------------------------------------
// brotli: the one-time decompression of an embedded payload.
// ---------------------------------------------------------------------------

/// The byte sequence that brotli decompression yields on a given compressed
/// byte sequence. Decompression is a pure function of those bytes, so the
/// result only gets a name here.
pub uninterp spec fn brotli_plain(data: Seq<u8>) -> Seq<u8>;

/// Whether a byte sequence is a well-formed brotli stream, so that
/// decompressing it succeeds; a pure function of those bytes, like the
/// result itself.
pub uninterp spec fn brotli_ok(data: Seq<u8>) -> bool;

/// Relies on brotli::Decompressor, a streaming reader over the compressed
/// bytes: reading it to the end yields the decompressed bytes, and fails
/// exactly when the stream is corrupt, truncated or followed by trailing
/// data.
#[verifier::external_body]
pub(crate) fn decompress(data: &Vec<u8>) -> (r: Option<Vec<u8>>)
    ensures
        r is Some <==> brotli_ok(data@),
        r matches Some(v) ==> v@ == brotli_plain(data@),
{
    let mut out = Vec::new();
    let mut dec = brotli::Decompressor::new(std::io::Cursor::new(data), 4096);
    match std::io::Read::read_to_end(&mut dec, &mut out) {
        Ok(_) => Some(out),
        Err(_) => None,
    }
}

// ---------------------------------------------------------------------------
// std: UTF-8 decoding and the two conversions between strings and their
// character vectors.
// ---------------------------------------------------------------------------

/// The character sequence that a byte sequence decodes to under UTF-8.
pub uninterp spec fn utf8_chars(bytes: Seq<u8>) -> Seq<char>;

/// Whether a byte sequence is valid UTF-8.
pub uninterp spec fn utf8_ok(bytes: Seq<u8>) -> bool;

/// Relies on String::from_utf8: it returns the decoded string exactly when
/// the bytes are valid UTF-8, otherwise an error.
#[verifier::external_body]
pub(crate) fn bytes_to_string(bytes: Vec<u8>) -> (r: Option<String>)
    ensures
        r is Some <==> utf8_ok(bytes@),
        r matches Some(s) ==> s@ == utf8_chars(bytes@),
{
    String::from_utf8(bytes).ok()
}

/// Relies on str::chars: the iterator yields the string's characters in
/// order.
#[verifier::external_body]
pub(crate) fn chars_of_str(s: &str) -> (r: Vec<char>)
    ensures
        r@ == s@,
{
    s.chars().collect()
}

/// Relies on String's FromIterator<char> impl: collecting characters yields
/// the string of exactly those characters, in order.
#[verifier::external_body]
pub(crate) fn string_of_chars(cs: &Vec<char>) -> (r: String)
    ensures
        r@ == cs@,
{
    cs.iter().collect()
}

// ---------------------------------------------------------------------------
// rand: uniform sampling.
// ---------------------------------------------------------------------------

/// Relies on rand::random_range: a value drawn from `0..n` lies below `n`.
/// Which value comes back depends on the calling thread's generator, so
/// nothing more is stated of it.
#[verifier::external_body]
pub(crate) fn random_below(n: usize) -> (r: usize)
    requires
        n > 0,
    ensures
        r < n,
{
    rand::random_range(0..n)
}

// ---------------------------------------------------------------------------
// ahash: the hash maps behind the two indices.
// ---------------------------------------------------------------------------

#[verifier::external_type_specification]
#[verifier::external_body]
#[verifier::reject_recursive_types(K)]
#[verifier::reject_recursive_types(V)]
#[verifier::reject_recursive_types(S)]
pub struct ExAHashMap<K, V, S>(ahash::AHashMap<K, V, S>);

#[verifier::external_type_specification]
#[verifier::external_body]
pub struct ExAHashRandomState(ahash::RandomState);

/// What a Length Index table holds: bucket contents, keyed by character
/// count.
pub uninterp spec fn len_table_view(m: ahash::AHashMap<usize, Vec<String>>) -> Map<
    int,
    Seq<Seq<char>>,
>;

/// What a Starting-Character Index table holds: bucket contents, keyed by
/// leading character.
pub uninterp spec fn char_table_view(m: ahash::AHashMap<char, Vec<String>>) -> Map<
    char,
    Seq<Seq<char>>,
>;

/// Relies on AHashMap::new: a fresh map holds nothing.
#[verifier::external_body]
pub(crate) fn new_len_table() -> (m: ahash::AHashMap<usize, Vec<String>>)
    ensures
        forall|n: int| !len_table_view(m).contains_key(n),
{
    ahash::AHashMap::new()
}

/// Relies on HashMap::insert, reached through AHashMap's DerefMut: the map
/// afterwards holds `v` under `k` and is otherwise unchanged.
#[verifier::external_body]
pub(crate) fn len_table_insert(m: &mut ahash::AHashMap<usize, Vec<String>>, k: usize, v: Vec<String>)
    ensures
        len_table_view(*final(m)) == len_table_view(*old(m)).insert(k as int, v.deep_view()),
{
    m.insert(k, v);
}

/// Relies on HashMap::get, reached through AHashMap's Deref: it returns the
/// entry under `k`, or nothing when there is none.
#[verifier::external_body]
pub(crate) fn len_table_get<'a>(m: &'a ahash::AHashMap<usize, Vec<String>>, k: usize) -> (r: Option<
    &'a Vec<String>,
>)
    ensures
        match r {
            Some(v) => len_table_view(*m).contains_key(k as int) && v.deep_view() == len_table_view(
                *m,
            )[k as int],
            None => !len_table_view(*m).contains_key(k as int),
        },
{
    m.get(&k)
}

/// Relies on AHashMap::new: a fresh map holds nothing.
#[verifier::external_body]
pub(crate) fn new_char_table() -> (m: ahash::AHashMap<char, Vec<String>>)
    ensures
        forall|c: char| !char_table_view(m).contains_key(c),
{
    ahash::AHashMap::new()
}

/// Relies on HashMap::insert, reached through AHashMap's DerefMut: the map
/// afterwards holds `v` under `k` and is otherwise unchanged.
#[verifier::external_body]
pub(crate) fn char_table_insert(m: &mut ahash::AHashMap<char, Vec<String>>, k: char, v: Vec<String>)
    ensures
        char_table_view(*final(m)) == char_table_view(*old(m)).insert(k, v.deep_view()),
{
    m.insert(k, v);
}

/// Relies on HashMap::get, reached through AHashMap's Deref: it returns the
/// entry under `k`, or nothing when there is none.
#[verifier::external_body]
pub(crate) fn char_table_get<'a>(m: &'a ahash::AHashMap<char, Vec<String>>, k: char) -> (r: Option<
    &'a Vec<String>,
>)
    ensures
        match r {
            Some(v) => char_table_view(*m).contains_key(k) && v.deep_view() == char_table_view(*m)[k],
            None => !char_table_view(*m).contains_key(k),
        },
{
    m.get(&k)
}

} // verus!
