//! Snippets of texts, and the terms of a query that are worth highlighting in them.
use vstd::prelude::*;
use vstd::string::*;

use crate::order;
use crate::order::{list_texts, order_falling};
use crate::text;
use crate::text::{
    from_chars, is_blank_text, same_text, split_words, to_chars, trim_text,
};

verus! {

/// How many bytes a character takes in UTF-8.
pub open spec fn utf8_width(c: char) -> nat {
    if c <= '\u{7f}' {
        1
    } else if c <= '\u{7ff}' {
        2
    } else if c <= '\u{ffff}' {
        3
    } else {
        4
    }
}

fn char_width(c: char) -> (r: u128)
    ensures
        r == utf8_width(c),
{
    if c <= '\u{7f}' {
        1
    } else if c <= '\u{7ff}' {
        2
    } else if c <= '\u{ffff}' {
        3
    } else {
        4
    }
}

/// How many bytes a text takes in UTF-8.
pub open spec fn byte_length(s: Seq<char>) -> nat
    decreases s.len(),
{
    if s.len() == 0 {
        0
    } else {
        byte_length(s.drop_last()) + utf8_width(s.last())
    }
}

proof fn lemma_byte_length_bound(s: Seq<char>)
    ensures
        s.len() <= byte_length(s) <= 4 * s.len(),
    decreases s.len(),
{
    if s.len() > 0 {
        lemma_byte_length_bound(s.drop_last());
    }
}

proof fn lemma_byte_length_grows(s: Seq<char>, a: int, b: int)
    requires
        0 <= a < b <= s.len(),
    ensures
        byte_length(s.take(a)) < byte_length(s.take(b)),
    decreases b - a,
{
    let t = s.take(b);
    assert(t.drop_last() =~= s.take(b - 1));
    if a < b - 1 {
        lemma_byte_length_grows(s, a, b - 1);
    }
}

/// Whether `needle` stands in `s` from `p` on.
pub open spec fn occurs_at(s: Seq<char>, needle: Seq<char>, p: int) -> bool {
    0 <= p && p + needle.len() <= s.len() && s.subrange(p, p + needle.len()) == needle
}

/// Whether `p` is the first place where `needle` stands in `s`.
pub open spec fn occurs_first_at(s: Seq<char>, needle: Seq<char>, p: int) -> bool {
    &&& occurs_at(s, needle, p)
    &&& forall|q: int| q < p ==> !#[trigger] occurs_at(s, needle, q)
}

/// The first place where `needle` stands in `s`, if there is one.
pub open spec fn first_occurrence(s: Seq<char>, needle: Seq<char>) -> Option<int> {
    if exists|p: int| occurs_first_at(s, needle, p) {
        Some(choose|p: int| occurs_first_at(s, needle, p))
    } else {
        None
    }
}

proof fn lemma_first_occurrence(s: Seq<char>, needle: Seq<char>, p: int)
    requires
        occurs_first_at(s, needle, p),
    ensures
        first_occurrence(s, needle) == Some(p),
{
    let q = choose|q: int| occurs_first_at(s, needle, q);
    assert(occurs_at(s, needle, p));
    assert(occurs_at(s, needle, q));
}

fn stands_at(s: &Vec<char>, needle: &Vec<char>, p: usize) -> (r: bool)
    requires
        p + needle@.len() <= s@.len(),
    ensures
        r == occurs_at(s@, needle@, p as int),
{
    let ghost here = s@.subrange(p as int, p + needle@.len());
    let size: usize = s.len();
    let mut i: usize = 0;
    while i < needle.len()
        invariant
            i <= needle@.len(),
            p + needle@.len() <= s@.len(),
            size == s@.len(),
            here == s@.subrange(p as int, p + needle@.len()),
            forall|k: int| 0 <= k < i ==> here[k] == needle@[k],
        decreases needle@.len() - i,
    {
        if s[p + i] != needle[i] {
            assert(here[i as int] != needle@[i as int]);
            return false;
        }
        i = i + 1;
    }
    assert(here =~= needle@);
    true
}

fn find_chars(s: &Vec<char>, needle: &Vec<char>) -> (r: Option<usize>)
    ensures
        match first_occurrence(s@, needle@) {
            Some(p) => r is Some && r->0 == p && p <= s@.len(),
            None => r is None,
        },
{
    if needle.len() > s.len() {
        assert forall|p: int| !occurs_first_at(s@, needle@, p) by {
            assert(!occurs_at(s@, needle@, p));
        }
        return None;
    }
    let last: usize = s.len() - needle.len();
    let mut p: usize = 0;
    while p < last
        invariant
            last == s@.len() - needle@.len(),
            p <= last,
            forall|q: int| q < p ==> !#[trigger] occurs_at(s@, needle@, q),
        decreases last - p,
    {
        if stands_at(s, needle, p) {
            proof {
                lemma_first_occurrence(s@, needle@, p as int);
            }
            return Some(p);
        }
        p = p + 1;
    }
    if stands_at(s, needle, last) {
        proof {
            lemma_first_occurrence(s@, needle@, last as int);
        }
        return Some(last);
    }
    assert forall|q: int| !occurs_first_at(s@, needle@, q) by {
        assert(!occurs_at(s@, needle@, q));
    }
    None
}

/// Where the search for the first word of a query ends in a text: at this byte, counted in the
/// text in lower case, and at the first byte where the word is not found.
pub open spec fn hit_byte(full: Seq<char>, query: Seq<char>) -> nat {
    let lower = text::lowercase(full);
    match first_occurrence(lower, text::lowercase(text::words(query)[0])) {
        Some(p) => byte_length(lower.take(p)),
        None => 0,
    }
}

/// Whether the `k`-th character of a text starts at the byte `b`.
pub open spec fn starts_at(full: Seq<char>, b: nat, k: int) -> bool {
    0 <= k <= full.len() && byte_length(full.take(k)) == b
}

/// Whether a snippet of a text can be cut for a query: no character of the text spans the byte
/// at which the query was found in lower case.
pub open spec fn has_snippet(full: Seq<char>, query: Seq<char>) -> bool {
    text::is_blank(query) || exists|k: int| starts_at(full, hit_byte(full, query), k)
}

/// The snippet of a text for a query: up to 180 characters, from 40 characters before the first
/// word of the query on.
pub open spec fn snippet(full: Seq<char>, query: Seq<char>) -> Seq<char> {
    if text::is_blank(query) {
        order::first_of(full, 180)
    } else {
        let k = choose|k: int| starts_at(full, hit_byte(full, query), k);
        let start = if k < 40 {
            0
        } else {
            k - 40
        };
        order::first_of(full.skip(start), 180)
    }
}

proof fn lemma_starts_at_unique(full: Seq<char>, b: nat, k: int, l: int)
    requires
        starts_at(full, b, k),
        starts_at(full, b, l),
    ensures
        k == l,
{
    if k < l {
        lemma_byte_length_grows(full, k, l);
    } else if l < k {
        lemma_byte_length_grows(full, l, k);
    }
}

fn count_bytes(s: &Vec<char>, to: usize) -> (r: u128)
    requires
        to <= s@.len(),
    ensures
        r == byte_length(s@.take(to as int)),
{
    let mut n: u128 = 0;
    let mut i: usize = 0;
    while i < to
        invariant
            i <= to <= s@.len(),
            n == byte_length(s@.take(i as int)),
        decreases to - i,
    {
        proof {
            lemma_byte_length_bound(s@.take(i as int));
            assert(s@.take(i + 1).drop_last() =~= s@.take(i as int));
        }
        n = n + char_width(s[i]);
        i = i + 1;
    }
    n
}

fn char_at_byte(s: &Vec<char>, b: u128) -> (r: Option<usize>)
    ensures
        match r {
            Some(k) => starts_at(s@, b as nat, k as int),
            None => forall|k: int| !#[trigger] starts_at(s@, b as nat, k),
        },
{
    let mut n: u128 = 0;
    let mut i: usize = 0;
    while i < s.len() && n < b
        invariant
            i <= s@.len(),
            n == byte_length(s@.take(i as int)),
            forall|k: int| 0 <= k < i ==> byte_length(#[trigger] s@.take(k)) < b,
        decreases s@.len() - i,
    {
        proof {
            lemma_byte_length_bound(s@.take(i as int));
            assert(s@.take(i + 1).drop_last() =~= s@.take(i as int));
        }
        n = n + char_width(s[i]);
        i = i + 1;
    }
    if n == b {
        Some(i)
    } else {
        proof {
            assert forall|k: int| !#[trigger] starts_at(s@, b as nat, k) by {
                if 0 <= k <= s@.len() {
                    if i < k {
                        lemma_byte_length_grows(s@, i as int, k);
                    }
                    assert(k < i ==> byte_length(s@.take(k)) < b);
                }
            }
        }
        None
    }
}

fn take_chars(s: &Vec<char>, start: usize, count: usize) -> (r: String)
    requires
        start <= s@.len(),
    ensures
        r@ == order::first_of(s@.skip(start as int), count as int),
{
    let rest: usize = s.len() - start;
    let end: usize = if rest < count {
        s.len()
    } else {
        start + count
    };
    assert(s@.subrange(start as int, end as int) =~= order::first_of(
        s@.skip(start as int),
        count as int,
    ));
    from_chars(s, start, end)
}

fn snippet_start(full: &str, query: &str) -> (r: Option<usize>)
    ensures
        has_snippet(full@, query@) ==> r is Some && r->0 <= full@.len() && order::first_of(
            full@.skip(r->0 as int),
            180,
        ) == snippet(full@, query@),
        !has_snippet(full@, query@) ==> r is None,
{
    if is_blank_text(query) {
        assert(full@.skip(0) =~= full@);
        return Some(0);
    }
    let found = split_words(query);
    proof {
        text::lemma_words(query@);
        assert(text::texts(found@).len() == found@.len());
        assert(text::texts(found@)[0] == found@[0]@);
    }
    let chars = to_chars(full);
    let lower = to_chars(full.to_lowercase().as_str());
    let needle = to_chars(found[0].to_lowercase().as_str());
    let b: u128 = match find_chars(&lower, &needle) {
        Some(p) => count_bytes(&lower, p),
        None => 0,
    };
    match char_at_byte(&chars, b) {
        Some(k) => {
            proof {
                assert(starts_at(full@, hit_byte(full@, query@), k as int));
                let l = choose|l: int| starts_at(full@, hit_byte(full@, query@), l);
                lemma_starts_at_unique(full@, hit_byte(full@, query@), k as int, l);
            }
            Some(
                if k < 40 {
                    0
                } else {
                    k - 40
                },
            )
        },
        None => None,
    }
}

/// The snippet of a text for a query.
pub fn make_snippet(full: &str, query: &str) -> (r: String)
    requires
        has_snippet(full@, query@),
    ensures
        r@ == snippet(full@, query@),
{
    match snippet_start(full, query) {
        Some(start) => take_chars(&to_chars(full), start, 180),
        None => String::new(),
    }
}

/// The snippet of a text for a query, where there is one.
pub fn try_make_snippet(full: &str, query: &str) -> (r: Option<String>)
    ensures
        has_snippet(full@, query@) ==> r is Some && r->0@ == snippet(full@, query@),
        !has_snippet(full@, query@) ==> r is None,
{
    match snippet_start(full, query) {
        Some(_) => Some(make_snippet(full, query)),
        None => None,
    }
}

/// Whether `part` stands in `full` from `start` on.
pub open spec fn is_part(full: Seq<char>, part: Seq<char>, start: int) -> bool {
    0 <= start && start + part.len() <= full.len() && part == full.subrange(
        start,
        start + part.len(),
    )
}

/// A snippet is a part of its text, and of no more than 180 characters.
pub proof fn law_snippet_is_a_part(full: Seq<char>, query: Seq<char>)
    requires
        has_snippet(full, query),
    ensures
        snippet(full, query).len() <= 180,
        exists|start: int| is_part(full, snippet(full, query), start),
{
    let start = if text::is_blank(query) {
        0
    } else {
        let k = choose|k: int| starts_at(full, hit_byte(full, query), k);
        if k < 40 {
            0
        } else {
            k - 40
        }
    };
    assert(full.skip(0) =~= full);
    let part = snippet(full, query);
    assert(part =~= full.subrange(start, start + part.len()));
    assert(is_part(full, part, start));
}

/// A text that lower case leaves as it is has a snippet for every query, and the snippet holds
/// the first word of the query in lower case where the text does and the word is short enough
/// to fit.
pub proof fn law_snippet_holds_the_word(full: Seq<char>, query: Seq<char>)
    requires
        text::lowercase(full) == full,
        !text::is_blank(query),
    ensures
        has_snippet(full, query),
        ({
            let word = text::lowercase(text::words(query)[0]);
            first_occurrence(full, word) is Some && word.len() <= 140 ==> exists|p: int|
                occurs_at(snippet(full, query), word, p)
        }),
{
    let word = text::lowercase(text::words(query)[0]);
    let b = hit_byte(full, query);
    match first_occurrence(full, word) {
        Some(p) => {
            assert(occurs_first_at(full, word, p));
            assert(occurs_at(full, word, p));
            assert(starts_at(full, b, p));
            let k = choose|k: int| starts_at(full, b, k);
            lemma_starts_at_unique(full, b, k, p);
            let start = if p < 40 {
                0
            } else {
                p - 40
            };
            if word.len() <= 140 {
                let part = snippet(full, query);
                assert(part.subrange(p - start, p - start + word.len()) =~= word) by {
                    let here = full.subrange(p, p + word.len());
                    assert(here =~= word);
                    assert forall|i: int| 0 <= i < word.len() implies part[p - start + i]
                        == word[i] by {
                        assert(here[i] == full[p + i]);
                    }
                }
                assert(occurs_at(part, word, p - start));
            }
        },
        None => {
            assert(full.take(0).len() == 0);
            assert(starts_at(full, b, 0));
        },
    }
}

/// The characters of a text from `start` up to `end`, as far as there are any.
pub open spec fn sliced(full: Seq<char>, start: int, end: int) -> Seq<char> {
    if start >= end || start >= full.len() {
        Seq::empty()
    } else {
        order::first_of(full.skip(start), end - start)
    }
}

/// The characters of a text from `start` up to `end`, as far as there are any.
pub fn slice_chars_owned(full: &str, start: usize, end: usize) -> (r: String)
    ensures
        r@ == sliced(full@, start as int, end as int),
{
    let chars = to_chars(full);
    if start >= end || start >= chars.len() {
        return String::new();
    }
    take_chars(&chars, start, end - start)
}

/// Whether a term is worth highlighting.
pub open spec fn is_highlight(term: Seq<char>) -> bool {
    term.len() >= 2 && exists|i: int|
        0 <= i < term.len() && is_telling(#[trigger] term[i])
}

/// Whether a character makes a term worth highlighting: a letter, a digit or anything beyond
/// ASCII.
pub open spec fn is_telling(c: char) -> bool {
    text::alphanumeric(c) || c > '\u{7f}'
}

/// Whether a term is worth highlighting.
pub fn is_highlight_term(term: &str) -> (r: bool)
    ensures
        r == is_highlight(term@),
{
    let chars = to_chars(term);
    if chars.len() < 2 {
        return false;
    }
    let mut i: usize = 0;
    while i < chars.len()
        invariant
            i <= chars@.len(),
            chars@ == term@,
            term@.len() >= 2,
            forall|k: int| 0 <= k < i ==> !is_telling(#[trigger] term@[k]),
        decreases chars@.len() - i,
    {
        let c = chars[i];
        if c.is_alphanumeric() || c > '\u{7f}' {
            assert(is_telling(term@[i as int]));
            return true;
        }
        i = i + 1;
    }
    false
}

/// Whether a term is among the given ones, whatever the case of its letters.
pub open spec fn is_known(terms: Seq<Seq<char>>, term: Seq<char>) -> bool {
    exists|i: int|
        0 <= i < terms.len() && text::lowercase(#[trigger] terms[i]) == text::lowercase(term)
}

/// The candidates that are worth highlighting, without spaces around them, each one once
/// whatever the case of its letters.
pub open spec fn kept_terms(candidates: Seq<Seq<char>>) -> Seq<Seq<char>>
    decreases candidates.len(),
{
    if candidates.len() == 0 {
        Seq::empty()
    } else {
        let before = kept_terms(candidates.drop_last());
        let term = text::trimmed(candidates.last());
        if is_highlight(term) && !is_known(before, term) {
            before.push(term)
        } else {
            before
        }
    }
}

/// The lengths of texts.
pub open spec fn lengths(terms: Seq<Seq<char>>) -> Seq<int> {
    Seq::new(terms.len(), |i: int| terms[i].len() as int)
}

/// What may be highlighted for a query: the query itself, its words and its tokens.
pub open spec fn term_candidates(
    query: Seq<char>,
    tokens: Seq<Seq<char>>,
) -> Seq<Seq<char>> {
    seq![text::trimmed(query)] + text::words(query) + tokens
}

/// The terms to highlight for a query with the given tokens: the longest first, 32 of them at
/// most.
pub open spec fn query_terms(query: Seq<char>, tokens: Seq<Seq<char>>) -> Seq<Seq<char>> {
    let kept = kept_terms(term_candidates(query, tokens));
    order::first_of(order::listed(kept, order::falling_order(lengths(kept))), 32)
}

fn knows_term(terms: &Vec<String>, keys: &Vec<String>, term: &String) -> (r: bool)
    requires
        keys@.len() == terms@.len(),
        forall|i: int|
            0 <= i < keys@.len() ==> (#[trigger] keys@[i])@ == text::lowercase(terms@[i]@),
    ensures
        r == is_known(text::texts(terms@), term@),
{
    let key = term.to_lowercase();
    let ghost all = text::texts(terms@);
    let mut i: usize = 0;
    while i < keys.len()
        invariant
            i <= keys@.len(),
            keys@.len() == terms@.len(),
            all == text::texts(terms@),
            key@ == text::lowercase(term@),
            forall|i: int|
                0 <= i < keys@.len() ==> (#[trigger] keys@[i])@ == text::lowercase(terms@[i]@),
            forall|k: int| 0 <= k < i ==> text::lowercase(#[trigger] all[k]) != key@,
        decreases keys@.len() - i,
    {
        if same_text(keys[i].as_str(), key.as_str()) {
            assert(text::lowercase(all[i as int]) == key@);
            return true;
        }
        assert(all[i as int] == terms@[i as int]@);
        i = i + 1;
    }
    false
}

fn keep_terms(candidates: &Vec<String>) -> (r: Vec<String>)
    ensures
        text::texts(r@) == kept_terms(text::texts(candidates@)),
{
    let ghost all = text::texts(candidates@);
    let mut terms: Vec<String> = Vec::new();
    let mut keys: Vec<String> = Vec::new();
    let mut i: usize = 0;
    assert(text::texts(terms@) =~= kept_terms(all.take(0)));
    while i < candidates.len()
        invariant
            i <= candidates@.len(),
            all == text::texts(candidates@),
            keys@.len() == terms@.len(),
            forall|i: int|
                0 <= i < keys@.len() ==> (#[trigger] keys@[i])@ == text::lowercase(terms@[i]@),
            text::texts(terms@) == kept_terms(all.take(i as int)),
        decreases candidates@.len() - i,
    {
        let ghost before = text::texts(terms@);
        let term = trim_text(candidates[i].as_str());
        proof {
            assert(all.take(i + 1).drop_last() =~= all.take(i as int));
            assert(all.take(i + 1).last() == candidates@[i as int]@);
        }
        if is_highlight_term(term.as_str()) && !knows_term(&terms, &keys, &term) {
            keys.push(term.to_lowercase());
            terms.push(term);
            assert(text::texts(terms@) =~= before.push(term@));
        }
        i = i + 1;
    }
    assert(all.take(i as int) =~= all);
    terms
}

/// The terms to highlight for a query with the given tokens: the longest first, 32 of them at
/// most.
pub fn normalize_query_terms(query: &str, tokenizer_terms: &Vec<String>) -> (r: Vec<String>)
    ensures
        text::texts(r@) == query_terms(query@, text::texts(tokenizer_terms@)),
{
    let ghost tokens = text::texts(tokenizer_terms@);
    let found = split_words(query);
    let mut candidates: Vec<String> = Vec::new();
    candidates.push(trim_text(query));
    let ghost head = seq![text::trimmed(query@)];
    let mut i: usize = 0;
    proof {
        assert(text::texts(found@).len() == found@.len());
        assert(text::texts(candidates@) =~= head + text::words(query@).take(0));
    }
    while i < found.len()
        invariant
            i <= found@.len(),
            text::texts(found@) == text::words(query@),
            found@.len() == text::words(query@).len(),
            text::texts(candidates@) == head + text::words(query@).take(i as int),
        decreases found@.len() - i,
    {
        let ghost before = text::texts(candidates@);
        candidates.push(found[i].clone());
        proof {
            assert(text::texts(candidates@) =~= before.push(found@[i as int]@));
            assert(text::texts(found@)[i as int] == found@[i as int]@);
            assert(text::texts(candidates@) =~= head + text::words(query@).take(i + 1));
        }
        i = i + 1;
    }
    assert(text::words(query@).take(i as int) =~= text::words(query@));
    let ghost head = head + text::words(query@);
    let mut j: usize = 0;
    assert(text::texts(candidates@) =~= head + tokens.take(0));
    while j < tokenizer_terms.len()
        invariant
            j <= tokenizer_terms@.len(),
            tokens == text::texts(tokenizer_terms@),
            text::texts(candidates@) == head + tokens.take(j as int),
        decreases tokenizer_terms@.len() - j,
    {
        let ghost before = text::texts(candidates@);
        candidates.push(tokenizer_terms[j].clone());
        proof {
            assert(text::texts(candidates@) =~= before.push(tokenizer_terms@[j as int]@));
            assert(text::texts(candidates@) =~= head + tokens.take(j + 1));
        }
        j = j + 1;
    }
    assert(tokens.take(j as int) =~= tokens);
    let terms = keep_terms(&candidates);
    let ghost kept = text::texts(terms@);
    let mut keys: Vec<i128> = Vec::new();
    let mut k: usize = 0;
    assert(order::ints(keys@) =~= lengths(kept).take(0));
    while k < terms.len()
        invariant
            k <= terms@.len(),
            kept == text::texts(terms@),
            order::ints(keys@) == lengths(kept).take(k as int),
        decreases terms@.len() - k,
    {
        let ghost before = order::ints(keys@);
        let n = to_chars(terms[k].as_str()).len();
        keys.push(n as i128);
        proof {
            assert(order::ints(keys@) =~= before.push(n as int));
            assert(order::ints(keys@) =~= lengths(kept).take(k + 1));
        }
        k = k + 1;
    }
    assert(lengths(kept).take(k as int) =~= lengths(kept));
    let listing = order_falling(&keys);
    list_texts(&terms, &listing, 32)
}

proof fn lemma_kept_terms(candidates: Seq<Seq<char>>)
    ensures
        ({
            let kept = kept_terms(candidates);
            &&& forall|i: int|
                0 <= i < kept.len() ==> is_highlight(#[trigger] kept[i]) && text::trimmed(kept[i])
                    == kept[i]
            &&& forall|i: int, j: int|
                0 <= i < j < kept.len() ==> text::lowercase(#[trigger] kept[i])
                    != text::lowercase(#[trigger] kept[j])
            &&& forall|c: int|
                0 <= c < candidates.len() && is_highlight(
                    text::trimmed(#[trigger] candidates[c]),
                ) ==> is_known(kept, text::trimmed(candidates[c]))
        }),
    decreases candidates.len(),
{
    if candidates.len() > 0 {
        let shorter = candidates.drop_last();
        lemma_kept_terms(shorter);
        let before = kept_terms(shorter);
        let kept = kept_terms(candidates);
        let term = text::trimmed(candidates.last());
        text::lemma_trimmed_idempotent(candidates.last());
        assert forall|i: int, j: int| 0 <= i < j < kept.len() implies text::lowercase(
            #[trigger] kept[i],
        ) != text::lowercase(#[trigger] kept[j]) by {
            if j == before.len() {
                assert(kept[i] == before[i]);
            } else {
                assert(kept[i] == before[i] && kept[j] == before[j]);
            }
        }
        assert forall|c: int|
            0 <= c < candidates.len() && is_highlight(
                text::trimmed(#[trigger] candidates[c]),
            ) implies is_known(kept, text::trimmed(candidates[c])) by {
            if c < shorter.len() {
                assert(shorter[c] == candidates[c]);
                assert(is_known(before, text::trimmed(candidates[c])));
                let i = choose|i: int|
                    0 <= i < before.len() && text::lowercase(#[trigger] before[i])
                        == text::lowercase(text::trimmed(candidates[c]));
                assert(kept[i] == before[i]);
            } else if is_known(before, term) {
                assert(kept == before);
            } else {
                assert(kept[before.len() as int] == term);
            }
        }
    }
}

/// The terms are worth highlighting, no two of them differ only in the case of their letters,
/// the longer ones come first, and there are 32 of them at most.
pub proof fn law_query_terms(query: Seq<char>, tokens: Seq<Seq<char>>)
    ensures
        ({
            let terms = query_terms(query, tokens);
            &&& terms.len() <= 32
            &&& forall|i: int| 0 <= i < terms.len() ==> is_highlight(#[trigger] terms[i])
            &&& forall|i: int, j: int|
                0 <= i < j < terms.len() ==> (#[trigger] terms[i]).len() >= (
                #[trigger] terms[j]).len() && text::lowercase(terms[i]) != text::lowercase(terms[j])
        }),
{
    let kept = kept_terms(term_candidates(query, tokens));
    let terms = query_terms(query, tokens);
    lemma_kept_terms(term_candidates(query, tokens));
    order::law_falling_order(lengths(kept));
    let listing = order::falling_order(lengths(kept));
    assert forall|i: int| 0 <= i < terms.len() implies is_highlight(#[trigger] terms[i]) by {
        assert(terms[i] == kept[listing[i]]);
    }
    assert forall|i: int, j: int| 0 <= i < j < terms.len() implies (#[trigger] terms[i]).len()
        >= (#[trigger] terms[j]).len() && text::lowercase(terms[i]) != text::lowercase(terms[j]) by {
        order::lemma_listed(kept, lengths(kept), i, j);
        assert(listing[i] != listing[j]);
        assert(terms[i] == kept[listing[i]] && terms[j] == kept[listing[j]]);
        if listing[i] < listing[j] {
            assert(text::lowercase(kept[listing[i]]) != text::lowercase(kept[listing[j]]));
        } else {
            assert(text::lowercase(kept[listing[j]]) != text::lowercase(kept[listing[i]]));
        }
    }
}

/// Whatever is worth highlighting of the query, its words and its tokens is a term, up to the
/// case of its letters, unless there are more than 32 terms.
pub proof fn law_query_terms_are_complete(query: Seq<char>, tokens: Seq<Seq<char>>, c: int)
    requires
        0 <= c < term_candidates(query, tokens).len(),
        is_highlight(text::trimmed(term_candidates(query, tokens)[c])),
        kept_terms(term_candidates(query, tokens)).len() <= 32,
    ensures
        is_known(query_terms(query, tokens), text::trimmed(term_candidates(query, tokens)[c])),
{
    let kept = kept_terms(term_candidates(query, tokens));
    let term = text::trimmed(term_candidates(query, tokens)[c]);
    lemma_kept_terms(term_candidates(query, tokens));
    let k = choose|k: int|
        0 <= k < kept.len() && text::lowercase(#[trigger] kept[k]) == text::lowercase(term);
    order::law_falling_order(lengths(kept));
    let listing = order::falling_order(lengths(kept));
    assert(listing.contains(k));
    let i = choose|i: int| 0 <= i < listing.len() && listing[i] == k;
    assert(query_terms(query, tokens)[i] == kept[k]);
}

/// For a blank query a snippet is the begin of the text. For any other it begins forty characters
/// before the place `p` at which the first word of the query stands, in lower case, first in the
/// text in lower case, or with the text where there are fewer before it; it does so where lower
/// case changes no length before that place. It goes on for 180 characters, or to the end of the
/// text.
pub proof fn law_snippet_place(full: Seq<char>, query: Seq<char>, p: int)
    ensures
        text::is_blank(query) ==> is_part(full, snippet(full, query), 0) && snippet(
            full,
            query,
        ).len() == (if full.len() < 180 {
            full.len() as int
        } else {
            180
        }),
        !text::is_blank(query) && 0 <= p <= full.len() && occurs_first_at(
            text::lowercase(full),
            text::lowercase(text::words(query)[0]),
            p,
        ) && byte_length(text::lowercase(full).take(p)) == byte_length(full.take(p)) ==> {
            let start = if p < 40 {
                0
            } else {
                p - 40
            };
            &&& has_snippet(full, query)
            &&& is_part(full, snippet(full, query), start)
            &&& snippet(full, query).len() == (if full.len() - start < 180 {
                full.len() - start
            } else {
                180
            })
        },
        !text::is_blank(query) && (forall|q: int|
            !#[trigger] occurs_at(
                text::lowercase(full),
                text::lowercase(text::words(query)[0]),
                q,
            )) ==> {
            &&& has_snippet(full, query)
            &&& is_part(full, snippet(full, query), 0)
            &&& snippet(full, query).len() == (if full.len() < 180 {
                full.len() as int
            } else {
                180
            })
        },
{
    let lower = text::lowercase(full);
    let word = text::lowercase(text::words(query)[0]);
    let part = snippet(full, query);
    assert(full.skip(0) =~= full);
    if text::is_blank(query) {
        assert(part =~= full.subrange(0, part.len() as int));
    } else {
        let b = hit_byte(full, query);
        if 0 <= p <= full.len() && occurs_first_at(lower, word, p) && byte_length(lower.take(p))
            == byte_length(full.take(p)) {
            lemma_first_occurrence(lower, word, p);
            assert(starts_at(full, b, p));
            let k = choose|k: int| starts_at(full, b, k);
            lemma_starts_at_unique(full, b, k, p);
            let start = if p < 40 {
                0
            } else {
                p - 40
            };
            assert(part =~= full.subrange(start, start + part.len()));
        }
        if forall|q: int| !#[trigger] occurs_at(lower, word, q) {
            assert(forall|q: int| !occurs_first_at(lower, word, q));
            assert(full.take(0).len() == 0);
            assert(starts_at(full, b, 0));
            let k = choose|k: int| starts_at(full, b, k);
            lemma_starts_at_unique(full, b, k, 0);
            assert(part =~= full.subrange(0, part.len() as int));
        }
    }
}

proof fn lemma_kept_terms_are_few(candidates: Seq<Seq<char>>)
    ensures
        kept_terms(candidates).len() <= candidates.len(),
        forall|k: int|
            0 <= k < kept_terms(candidates).len() ==> is_trimmed_of(
                candidates,
                #[trigger] kept_terms(candidates)[k],
            ),
    decreases candidates.len(),
{
    if candidates.len() > 0 {
        let shorter = candidates.drop_last();
        lemma_kept_terms_are_few(shorter);
        let before = kept_terms(shorter);
        let kept = kept_terms(candidates);
        assert forall|k: int| 0 <= k < kept.len() implies is_trimmed_of(
            candidates,
            #[trigger] kept[k],
        ) by {
            if k < before.len() {
                assert(kept[k] == before[k]);
                let i = choose|i: int|
                    0 <= i < shorter.len() && text::trimmed(#[trigger] shorter[i]) == before[k];
                assert(candidates[i] == shorter[i]);
            } else {
                assert(text::trimmed(candidates[candidates.len() - 1]) == kept[k]);
            }
        }
    }
}

/// Whether a term is one of the given texts without the spaces at its ends.
pub open spec fn is_trimmed_of(candidates: Seq<Seq<char>>, term: Seq<char>) -> bool {
    exists|i: int|
        0 <= i < candidates.len() && text::trimmed(#[trigger] candidates[i]) == term
}

/// The terms of a query are the query itself, words of it or its tokens, each without the spaces at
/// its ends, and of at least two characters. Where there are no more than 32 in all, each one of
/// them that has a letter, a digit or a character beyond ASCII is a term, up to the case of its
/// letters.
pub proof fn law_terms_of_a_query(query: Seq<char>, tokens: Seq<Seq<char>>)
    ensures
        ({
            let terms = query_terms(query, tokens);
            &&& forall|i: int|
                0 <= i < terms.len() ==> {
                    let term = #[trigger] terms[i];
                    &&& term.len() >= 2
                    &&& term == text::trimmed(text::trimmed(query)) || is_trimmed_of(
                        text::words(query),
                        term,
                    ) || is_trimmed_of(tokens, term)
                }
            &&& 1 + text::words(query).len() + tokens.len() <= 32 ==> forall|t: Seq<char>|
                (t == text::trimmed(query) || text::words(query).contains(t) || tokens.contains(t))
                    && text::trimmed(t).len() >= 2 && has_telling(text::trimmed(t))
                    ==> is_known(terms, #[trigger] text::trimmed(t))
        }),
{
    let candidates = term_candidates(query, tokens);
    let kept = kept_terms(candidates);
    let terms = query_terms(query, tokens);
    let words = text::words(query);
    lemma_kept_terms_are_few(candidates);
    law_query_terms(query, tokens);
    order::law_falling_order(lengths(kept));
    let listing = order::falling_order(lengths(kept));
    assert forall|i: int| 0 <= i < terms.len() implies {
        let term = #[trigger] terms[i];
        &&& term.len() >= 2
        &&& term == text::trimmed(text::trimmed(query)) || is_trimmed_of(words, term)
            || is_trimmed_of(tokens, term)
    } by {
        assert(is_highlight(terms[i]));
        assert(terms[i] == kept[listing[i]]);
        assert(is_trimmed_of(candidates, terms[i]));
        let c = choose|c: int|
            0 <= c < candidates.len() && text::trimmed(#[trigger] candidates[c]) == terms[i];
        if c == 0 {
        } else if c <= words.len() {
            assert(candidates[c] == words[c - 1]);
            assert(is_trimmed_of(words, terms[i]));
        } else {
            assert(candidates[c] == tokens[c - 1 - words.len()]);
            assert(is_trimmed_of(tokens, terms[i]));
        }
    }
    if 1 + words.len() + tokens.len() <= 32 {
        assert forall|t: Seq<char>|
            (t == text::trimmed(query) || words.contains(t) || tokens.contains(t)) && text::trimmed(
                t,
            ).len() >= 2 && has_telling(text::trimmed(t)) implies is_known(
            terms,
            #[trigger] text::trimmed(t),
        ) by {
            let i = choose|i: int|
                0 <= i < text::trimmed(t).len() && (text::alphanumeric(
                    #[trigger] text::trimmed(t)[i],
                ) || text::trimmed(t)[i] > '\u{7f}');
            assert(is_telling(text::trimmed(t)[i]));
            assert(is_highlight(text::trimmed(t)));
            if t == text::trimmed(query) {
                assert(candidates[0] == t);
                law_query_terms_are_complete(query, tokens, 0);
            } else if words.contains(t) {
                let w = choose|w: int| 0 <= w < words.len() && words[w] == t;
                assert(candidates[w + 1] == t);
                law_query_terms_are_complete(query, tokens, w + 1);
            } else {
                let w = choose|w: int| 0 <= w < tokens.len() && tokens[w] == t;
                assert(candidates[w + 1 + words.len()] == t);
                law_query_terms_are_complete(query, tokens, w + 1 + words.len() as int);
            }
        }
    }
}

/// Whether a text has a letter, a digit or a character beyond ASCII.
pub open spec fn has_telling(s: Seq<char>) -> bool {
    exists|i: int|
        0 <= i < s.len() && (text::alphanumeric(#[trigger] s[i]) || s[i] > '\u{7f}')
}

/// A slice of a text is what stands between its two places: up to the end of the text where the
/// second one is beyond it, and nothing where the first one is, or where it is not before the second.
pub proof fn law_sliced(full: Seq<char>, start: int, end: int)
    requires
        0 <= start,
    ensures
        start <= end <= full.len() ==> sliced(full, start, end) == full.subrange(start, end),
        start <= full.len() <= end ==> sliced(full, start, end) == full.subrange(
            start,
            full.len() as int,
        ),
        start >= end || start >= full.len() ==> sliced(full, start, end).len() == 0,
{
    if start <= end <= full.len() {
        assert(sliced(full, start, end) =~= full.subrange(start, end));
    }
    if start <= full.len() <= end {
        assert(sliced(full, start, end) =~= full.subrange(start, full.len() as int));
    }
}

/// The length of a text in bytes is the length of its UTF-8 form.
pub proof fn law_byte_length(s: Seq<char>)
    ensures
        byte_length(s) == vstd::utf8::encode_utf8(s).len(),
    decreases s.len(),
{
    if s.len() > 0 {
        law_byte_length(s.drop_first());
        lemma_byte_length_front(s);
        lemma_width(s[0]);
        assert(vstd::utf8::encode_utf8(s) == vstd::utf8::encode_scalar(s[0] as u32)
            + vstd::utf8::encode_utf8(s.drop_first()));
    }
}

proof fn lemma_width(c: char)
    ensures
        vstd::utf8::encode_scalar(c as u32).len() == utf8_width(c),
{
    vstd::utf8::char_is_scalar(c);
    let n = c as u32;
    assert(c <= '\u{7f}' <==> n <= 0x7f);
    assert(c <= '\u{7ff}' <==> n <= 0x7ff);
    assert(c <= '\u{ffff}' <==> n <= 0xffff);
}

proof fn lemma_byte_length_front(s: Seq<char>)
    requires
        s.len() > 0,
    ensures
        byte_length(s) == utf8_width(s[0]) + byte_length(s.drop_first()),
    decreases s.len(),
{
    if s.len() > 1 {
        lemma_byte_length_front(s.drop_last());
        assert(s.drop_last().drop_first() =~= s.drop_first().drop_last());
    } else {
        assert(s.drop_last() =~= Seq::empty());
        assert(s.drop_first() =~= Seq::empty());
    }
}

} // verus!
