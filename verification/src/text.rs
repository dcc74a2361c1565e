//! Text as sequences of characters: blanks, words, order, numbers in decimal.
use vstd::prelude::*;
use vstd::string::*;

verus! {

/// The Unicode property White_Space.
pub open spec fn is_space(c: char) -> bool {
    let n = c as u32;
    ||| 0x9 <= n <= 0xd
    ||| n == 0x20
    ||| n == 0x85
    ||| n == 0xa0
    ||| n == 0x1680
    ||| 0x2000 <= n <= 0x200a
    ||| n == 0x2028
    ||| n == 0x2029
    ||| n == 0x202f
    ||| n == 0x205f
    ||| n == 0x3000
}

/// Whether `c` has the Unicode property White_Space.
pub fn is_white_space(c: char) -> (r: bool)
    ensures
        r == is_space(c),
{
    let n: u32 = c as u32;
    (0x9 <= n && n <= 0xd) || n == 0x20 || n == 0x85 || n == 0xa0 || n == 0x1680 || (0x2000 <= n
        && n <= 0x200a) || n == 0x2028 || n == 0x2029 || n == 0x202f || n == 0x205f || n == 0x3000
}

/// `String::push`: appends one character.
pub assume_specification[ String::push ](s: &mut String, c: char)
    ensures
        final(s)@ == old(s)@.push(c),
;

/// The views of a list of strings.
pub open spec fn texts(v: Seq<String>) -> Seq<Seq<char>> {
    Seq::new(v.len(), |i: int| v[i]@)
}

/// How many characters at the front of `s` are white space.
pub open spec fn leading_spaces(s: Seq<char>) -> nat
    decreases s.len(),
{
    if s.len() == 0 || !is_space(s[0]) {
        0
    } else {
        1 + leading_spaces(s.drop_first())
    }
}

/// How many characters at the end of `s` are white space.
pub open spec fn trailing_spaces(s: Seq<char>) -> nat
    decreases s.len(),
{
    if s.len() == 0 || !is_space(s.last()) {
        0
    } else {
        1 + trailing_spaces(s.drop_last())
    }
}

/// `s` without the white space at its two ends.
pub open spec fn trimmed(s: Seq<char>) -> Seq<char> {
    if is_blank(s) {
        Seq::empty()
    } else {
        s.subrange(leading_spaces(s) as int, s.len() - trailing_spaces(s))
    }
}

/// Whether `s` holds nothing but white space.
pub open spec fn is_blank(s: Seq<char>) -> bool {
    forall|i: int| 0 <= i < s.len() ==> is_space(#[trigger] s[i])
}

/// What `leading_spaces` counts: white space up to the count, none at it.
pub proof fn lemma_leading_spaces(s: Seq<char>)
    ensures
        leading_spaces(s) <= s.len(),
        forall|i: int| 0 <= i < leading_spaces(s) ==> is_space(#[trigger] s[i]),
        leading_spaces(s) < s.len() ==> !is_space(s[leading_spaces(s) as int]),
    decreases s.len(),
{
    if s.len() == 0 || !is_space(s[0]) {
    } else {
        let t = s.drop_first();
        lemma_leading_spaces(t);
        assert forall|i: int| 0 <= i < leading_spaces(s) implies is_space(#[trigger] s[i]) by {
            if i > 0 {
                assert(s[i] == t[i - 1]);
            }
        }
        if leading_spaces(s) < s.len() {
            assert(s[leading_spaces(s) as int] == t[leading_spaces(t) as int]);
        }
    }
}

/// The count of leading white space is the one place with those two properties.
pub proof fn lemma_leading_spaces_unique(s: Seq<char>, n: nat)
    requires
        n <= s.len(),
        forall|i: int| 0 <= i < n ==> is_space(#[trigger] s[i]),
        n < s.len() ==> !is_space(s[n as int]),
    ensures
        leading_spaces(s) == n,
{
    lemma_leading_spaces(s);
    let k = leading_spaces(s);
    if k < n {
        assert(is_space(s[k as int]));
    }
    if n < k {
        assert(is_space(s[n as int]));
    }
}

/// What `trailing_spaces` counts: white space after that place, none before it.
pub proof fn lemma_trailing_spaces(s: Seq<char>)
    ensures
        trailing_spaces(s) <= s.len(),
        forall|i: int| s.len() - trailing_spaces(s) <= i < s.len() ==> is_space(#[trigger] s[i]),
        trailing_spaces(s) < s.len() ==> !is_space(s[s.len() - trailing_spaces(s) - 1]),
    decreases s.len(),
{
    if s.len() == 0 || !is_space(s.last()) {
    } else {
        let t = s.drop_last();
        lemma_trailing_spaces(t);
        assert forall|i: int| s.len() - trailing_spaces(s) <= i < s.len() implies is_space(
            #[trigger] s[i],
        ) by {
            if i < s.len() - 1 {
                assert(s[i] == t[i]);
            }
        }
        if trailing_spaces(s) < s.len() {
            assert(s[s.len() - trailing_spaces(s) - 1] == t[t.len() - trailing_spaces(t) - 1]);
        }
    }
}

/// The count of trailing white space is the one place with those two properties.
pub proof fn lemma_trailing_spaces_unique(s: Seq<char>, n: nat)
    requires
        n <= s.len(),
        forall|i: int| s.len() - n <= i < s.len() ==> is_space(#[trigger] s[i]),
        n < s.len() ==> !is_space(s[s.len() - n - 1]),
    ensures
        trailing_spaces(s) == n,
{
    lemma_trailing_spaces(s);
    let k = trailing_spaces(s);
    if k < n {
        assert(is_space(s[s.len() - k - 1]));
    }
    if n < k {
        assert(is_space(s[s.len() - n - 1]));
    }
}

/// A text that is not blank keeps at least one character when it is trimmed, and what
/// is left neither begins nor ends with white space.
pub proof fn lemma_trimmed(s: Seq<char>)
    ensures
        is_blank(s) <==> trimmed(s).len() == 0,
        !is_blank(s) ==> leading_spaces(s) + trailing_spaces(s) < s.len(),
        !is_blank(s) ==> !is_space(trimmed(s)[0]) && !is_space(trimmed(s).last()),
        trimmed(s).len() <= s.len(),
{
    lemma_leading_spaces(s);
    lemma_trailing_spaces(s);
    if !is_blank(s) {
        let j = choose|i: int| 0 <= i < s.len() && !is_space(#[trigger] s[i]);
        assert(0 <= j < s.len() && !is_space(s[j]));
        assert(leading_spaces(s) <= j);
        assert(j < s.len() - trailing_spaces(s));
    }
}

/// Trimming twice changes nothing more.
pub proof fn lemma_trimmed_idempotent(s: Seq<char>)
    ensures
        trimmed(trimmed(s)) == trimmed(s),
{
    lemma_trimmed(s);
    let t = trimmed(s);
    if !is_blank(s) {
        lemma_leading_spaces_unique(t, 0);
        lemma_trailing_spaces_unique(t, 0);
        assert(!is_blank(t)) by {
            assert(!is_space(t[0]));
        }
        assert(t.subrange(0, t.len() as int) =~= t);
    } else {
        assert(is_blank(t));
    }
}

/// The characters of `s` as a vector.
pub fn to_chars(s: &str) -> (r: Vec<char>)
    ensures
        r@ == s@,
{
    let mut out: Vec<char> = Vec::new();
    for c in it: s.chars()
        invariant
            out@ == it.seq().take(it.index() as int),
            it.seq() == s@,
    {
        out.push(c);
        assert(it.seq().take(it.index() as int + 1) =~= it.seq().take(it.index() as int).push(c));
    }
    assert(s@.take(s@.len() as int) =~= s@);
    out
}

/// The characters from `from` up to `to` as a string.
pub fn from_chars(v: &Vec<char>, from: usize, to: usize) -> (r: String)
    requires
        from <= to <= v@.len(),
    ensures
        r@ == v@.subrange(from as int, to as int),
{
    let mut out: String = String::new();
    let mut i: usize = from;
    while i < to
        invariant
            from <= i <= to <= v@.len(),
            out@ == v@.subrange(from as int, i as int),
        decreases to - i,
    {
        out.push(v[i]);
        i = i + 1;
        assert(v@.subrange(from as int, i as int) =~= v@.subrange(from as int, i - 1).push(
            v@[i - 1],
        ));
    }
    out
}

/// `s` without the white space at its two ends.
pub fn trim_text(s: &str) -> (r: String)
    ensures
        r@ == trimmed(s@),
{
    let v = to_chars(s);
    let mut start: usize = 0;
    while start < v.len() && is_white_space(v[start])
        invariant
            start <= v@.len(),
            forall|i: int| 0 <= i < start ==> is_space(#[trigger] v@[i]),
        decreases v@.len() - start,
    {
        start = start + 1;
    }
    if start == v.len() {
        assert(is_blank(s@));
        assert(trimmed(s@) =~= Seq::empty());
        return String::new();
    }
    let mut end: usize = v.len();
    while end > start && is_white_space(v[end - 1])
        invariant
            start <= end <= v@.len(),
            start < v@.len(),
            !is_space(v@[start as int]),
            forall|i: int| end <= i < v@.len() ==> is_space(#[trigger] v@[i]),
        decreases end,
    {
        end = end - 1;
    }
    proof {
        assert(end > start);
        assert(!is_space(s@[start as int]));
        lemma_leading_spaces_unique(s@, start as nat);
        lemma_trailing_spaces_unique(s@, (s@.len() - end) as nat);
    }
    from_chars(&v, start, end)
}

/// Whether `s` holds nothing but white space.
pub fn is_blank_text(s: &str) -> (r: bool)
    ensures
        r == is_blank(s@),
{
    let v = to_chars(s);
    let mut i: usize = 0;
    while i < v.len()
        invariant
            i <= v@.len(),
            v@ == s@,
            forall|j: int| 0 <= j < i ==> is_space(#[trigger] v@[j]),
        decreases v@.len() - i,
    {
        if !is_white_space(v[i]) {
            assert(!is_space(s@[i as int]));
            return false;
        }
        i = i + 1;
    }
    true
}

/// How many characters at the front of `s` are not white space.
pub open spec fn word_length(s: Seq<char>) -> nat
    decreases s.len(),
{
    if s.len() == 0 || is_space(s[0]) {
        0
    } else {
        1 + word_length(s.drop_first())
    }
}

/// What `word_length` counts: no white space up to the count, white space at it.
pub proof fn lemma_word_length(s: Seq<char>)
    ensures
        word_length(s) <= s.len(),
        forall|i: int| 0 <= i < word_length(s) ==> !is_space(#[trigger] s[i]),
        word_length(s) < s.len() ==> is_space(s[word_length(s) as int]),
    decreases s.len(),
{
    if s.len() == 0 || is_space(s[0]) {
    } else {
        let t = s.drop_first();
        lemma_word_length(t);
        assert forall|i: int| 0 <= i < word_length(s) implies !is_space(#[trigger] s[i]) by {
            if i > 0 {
                assert(s[i] == t[i - 1]);
            }
        }
        if word_length(s) < s.len() {
            assert(s[word_length(s) as int] == t[word_length(t) as int]);
        }
    }
}

/// The length of the first word is the one place with those two properties.
pub proof fn lemma_word_length_unique(s: Seq<char>, n: nat)
    requires
        n <= s.len(),
        forall|i: int| 0 <= i < n ==> !is_space(#[trigger] s[i]),
        n < s.len() ==> is_space(s[n as int]),
    ensures
        word_length(s) == n,
{
    lemma_word_length(s);
    let k = word_length(s);
    if k < n {
        assert(!is_space(s[k as int]));
    }
    if n < k {
        assert(!is_space(s[n as int]));
    }
}

/// The words of `s`: its longest pieces without white space, in order.
pub open spec fn words(s: Seq<char>) -> Seq<Seq<char>>
    decreases s.len(),
{
    let t = s.skip(leading_spaces(s) as int);
    if t.len() == 0 {
        Seq::empty()
    } else {
        proof {
            lemma_leading_spaces(s);
            assert(!is_space(t[0]));
            assert(word_length(t) > 0);
            lemma_word_length(t);
        }
        seq![t.take(word_length(t) as int)] + words(t.skip(word_length(t) as int))
    }
}

/// A text has a word exactly when it is not blank, and no word is empty.
pub proof fn lemma_words(s: Seq<char>)
    ensures
        words(s).len() == 0 <==> is_blank(s),
        forall|i: int| 0 <= i < words(s).len() ==> (#[trigger] words(s)[i]).len() > 0,
    decreases s.len(),
{
    lemma_leading_spaces(s);
    let k = leading_spaces(s);
    let t = s.skip(k as int);
    if t.len() == 0 {
        assert(k == s.len());
    } else {
        assert(t[0] == s[k as int]);
        assert(!is_space(s[k as int]));
        lemma_word_length(t);
        assert(word_length(t) > 0);
        lemma_words(t.skip(word_length(t) as int));
        let rest = words(t.skip(word_length(t) as int));
        assert forall|i: int| 0 <= i < words(s).len() implies (#[trigger] words(s)[i]).len() > 0 by {
            if i > 0 {
                assert(words(s)[i] == rest[i - 1]);
            }
        }
    }
}

/// The words of `s`, as `str::split_whitespace` yields them.
pub fn split_words(s: &str) -> (r: Vec<String>)
    ensures
        texts(r@) == words(s@),
{
    let v = to_chars(s);
    let mut out: Vec<String> = Vec::new();
    let mut i: usize = 0;
    assert(s@.skip(0) =~= s@);
    assert(texts(out@) + words(s@) =~= words(s@));
    loop
        invariant
            i <= v@.len(),
            v@ == s@,
            texts(out@) + words(s@.skip(i as int)) == words(s@),
        ensures
            texts(out@) == words(s@),
        decreases v@.len() - i,
    {
        let ghost start = i as int;
        let ghost rest = s@.skip(start);
        while i < v.len() && is_white_space(v[i])
            invariant
                start <= i <= v@.len(),
                v@ == s@,
                forall|j: int| start <= j < i ==> is_space(#[trigger] v@[j]),
            decreases v@.len() - i,
        {
            i = i + 1;
        }
        proof {
            assert forall|j: int| 0 <= j < i - start implies is_space(#[trigger] rest[j]) by {
                assert(rest[j] == v@[start + j]);
            }
            lemma_leading_spaces_unique(rest, (i - start) as nat);
        }
        let ghost t = s@.skip(i as int);
        assert(t =~= rest.skip(i - start));
        if i == v.len() {
            assert(words(rest) =~= Seq::empty());
            assert(texts(out@) + words(rest) =~= texts(out@));
            break;
        }
        let from: usize = i;
        while i < v.len() && !is_white_space(v[i])
            invariant
                from <= i <= v@.len(),
                v@ == s@,
                forall|j: int| from <= j < i ==> !is_space(#[trigger] v@[j]),
                i == from ==> !is_space(v@[from as int]),
                from < v@.len(),
            decreases v@.len() - i,
        {
            i = i + 1;
        }
        proof {
            assert forall|j: int| 0 <= j < i - from implies !is_space(#[trigger] t[j]) by {
                assert(t[j] == v@[from + j]);
            }
            lemma_word_length_unique(t, (i - from) as nat);
            assert(t.take(i - from) =~= s@.subrange(from as int, i as int));
            assert(t.skip(i - from) =~= s@.skip(i as int));
        }
        let ghost before = texts(out@);
        out.push(from_chars(&v, from, i));
        proof {
            assert(texts(out@) =~= before.push(s@.subrange(from as int, i as int)));
            assert(texts(out@) + words(s@.skip(i as int)) =~= before + words(rest));
        }
    }
    out
}

/// `str::to_lowercase` of `s`: what the Unicode property Lowercase gives.
pub uninterp spec fn lowercase(s: Seq<char>) -> Seq<char>;

/// `str::to_lowercase`: its result is a function of the text alone.
pub assume_specification[ str::to_lowercase ](s: &str) -> (r: String)
    ensures
        r@ == lowercase(s@),
;

/// `char::is_alphanumeric` of `c`: what the Unicode properties Alphabetic and Numeric give.
pub uninterp spec fn alphanumeric(c: char) -> bool;

/// `char::is_alphanumeric`: its result is a function of the character alone.
pub assume_specification[ char::is_alphanumeric ](c: char) -> (r: bool)
    ensures
        r == alphanumeric(c),
;

/// Whether the two texts hold the same characters.
pub fn same_text(a: &str, b: &str) -> (r: bool)
    ensures
        r == (a@ == b@),
{
    a.to_owned() == b.to_owned()
}

/// The order of texts: by the first character in which they differ, a prefix first.
pub open spec fn text_lt(a: Seq<char>, b: Seq<char>) -> bool
    decreases a.len(),
{
    if b.len() == 0 {
        false
    } else if a.len() == 0 {
        true
    } else if a[0] != b[0] {
        a[0] < b[0]
    } else {
        text_lt(a.drop_first(), b.drop_first())
    }
}

/// No text is before itself.
pub proof fn lemma_text_lt_irreflexive(a: Seq<char>)
    ensures
        !text_lt(a, a),
    decreases a.len(),
{
    if a.len() > 0 {
        lemma_text_lt_irreflexive(a.drop_first());
    }
}

/// The order of texts is transitive.
pub proof fn lemma_text_lt_transitive(a: Seq<char>, b: Seq<char>, c: Seq<char>)
    requires
        text_lt(a, b),
        text_lt(b, c),
    ensures
        text_lt(a, c),
    decreases a.len(),
{
    if a.len() > 0 && b.len() > 0 && c.len() > 0 && a[0] == b[0] && b[0] == c[0] {
        lemma_text_lt_transitive(a.drop_first(), b.drop_first(), c.drop_first());
    }
}

/// Of two different texts one is before the other.
pub proof fn lemma_text_lt_total(a: Seq<char>, b: Seq<char>)
    ensures
        a == b || text_lt(a, b) || text_lt(b, a),
    decreases a.len(),
{
    if a.len() == 0 && b.len() == 0 {
        assert(a =~= b);
    } else if a.len() > 0 && b.len() > 0 && a[0] == b[0] {
        lemma_text_lt_total(a.drop_first(), b.drop_first());
        if a.drop_first() == b.drop_first() {
            assert(a =~= seq![a[0]] + a.drop_first());
            assert(b =~= seq![b[0]] + b.drop_first());
        }
    }
}

/// Whether `a` is before `b` in the order of texts.
pub fn text_less(a: &str, b: &str) -> (r: bool)
    ensures
        r == text_lt(a@, b@),
{
    let u = to_chars(a);
    let v = to_chars(b);
    let mut i: usize = 0;
    assert(a@.skip(0) =~= a@);
    assert(b@.skip(0) =~= b@);
    while i < u.len() && i < v.len() && u[i] == v[i]
        invariant
            u@ == a@,
            v@ == b@,
            i <= u@.len(),
            i <= v@.len(),
            text_lt(a@, b@) == text_lt(a@.skip(i as int), b@.skip(i as int)),
        decreases u@.len() - i,
    {
        assert(a@.skip(i as int).drop_first() =~= a@.skip(i + 1));
        assert(b@.skip(i as int).drop_first() =~= b@.skip(i + 1));
        i = i + 1;
    }
    if i == v.len() {
        false
    } else if i == u.len() {
        true
    } else {
        u[i] < v[i]
    }
}

/// The decimal digit of a number below ten.
pub open spec fn digit(d: nat) -> char {
    if d == 0 {
        '0'
    } else if d == 1 {
        '1'
    } else if d == 2 {
        '2'
    } else if d == 3 {
        '3'
    } else if d == 4 {
        '4'
    } else if d == 5 {
        '5'
    } else if d == 6 {
        '6'
    } else if d == 7 {
        '7'
    } else if d == 8 {
        '8'
    } else {
        '9'
    }
}

/// `n` written in decimal.
pub open spec fn decimal(n: nat) -> Seq<char>
    decreases n,
{
    if n < 10 {
        seq![digit(n)]
    } else {
        decimal(n / 10).push(digit(n % 10))
    }
}

/// Different numbers are written differently, with digits alone.
pub proof fn lemma_decimal(n: nat)
    ensures
        decimal(n).len() > 0,
        forall|i: int| 0 <= i < decimal(n).len() ==> '0' <= #[trigger] decimal(n)[i] <= '9',
    decreases n,
{
    if n >= 10 {
        lemma_decimal(n / 10);
    }
}

/// No two numbers are written alike.
pub proof fn lemma_decimal_injective(m: nat, n: nat)
    requires
        decimal(m) == decimal(n),
    ensures
        m == n,
    decreases m,
{
    lemma_decimal(m / 10);
    lemma_decimal(n / 10);
    assert(decimal(m).last() == digit(m % 10));
    assert(decimal(n).last() == digit(n % 10));
    if m < 10 {
        assert(decimal(m).len() == 1);
        if n >= 10 {
            assert(decimal(n).len() > 1);
        }
    } else if n < 10 {
        assert(decimal(m).len() > 1);
    } else {
        assert(decimal(m).drop_last() =~= decimal(m / 10));
        assert(decimal(n).drop_last() =~= decimal(n / 10));
        lemma_decimal_injective(m / 10, n / 10);
    }
}

/// `n` written in decimal.
pub fn decimal_text(n: usize) -> (r: String)
    ensures
        r@ == decimal(n as nat),
    decreases n,
{
    let last: usize = n % 10;
    let c = if last == 0 {
        '0'
    } else if last == 1 {
        '1'
    } else if last == 2 {
        '2'
    } else if last == 3 {
        '3'
    } else if last == 4 {
        '4'
    } else if last == 5 {
        '5'
    } else if last == 6 {
        '6'
    } else if last == 7 {
        '7'
    } else if last == 8 {
        '8'
    } else {
        '9'
    };
    let mut out = if n < 10 {
        String::new()
    } else {
        decimal_text(n / 10)
    };
    out.push(c);
    assert(n < 10 ==> out@ =~= seq![digit(n as nat)]);
    out
}

/// `a` followed by `b`.
pub fn concat_text(a: &str, b: &str) -> (r: String)
    ensures
        r@ == a@ + b@,
{
    let mut out = a.to_owned();
    out.append(b);
    out
}

/// The texts one after the other, with `sep` between any two.
pub open spec fn joined(parts: Seq<Seq<char>>, sep: Seq<char>) -> Seq<char>
    decreases parts.len(),
{
    if parts.len() == 0 {
        Seq::empty()
    } else if parts.len() == 1 {
        parts[0]
    } else {
        joined(parts.drop_last(), sep) + sep + parts.last()
    }
}

/// The texts one after the other, with `sep` between any two.
pub fn join_texts(parts: &Vec<String>, sep: &str) -> (r: String)
    ensures
        r@ == joined(texts(parts@), sep@),
{
    let mut out = String::new();
    let mut i: usize = 0;
    let ghost all = texts(parts@);
    assert(all.take(0) =~= Seq::empty());
    while i < parts.len()
        invariant
            i <= parts@.len(),
            all == texts(parts@),
            out@ == joined(all.take(i as int), sep@),
        decreases parts@.len() - i,
    {
        if i > 0 {
            out.append(sep);
        }
        out.append(parts[i].as_str());
        proof {
            let now = all.take(i + 1);
            assert(now.drop_last() =~= all.take(i as int));
            assert(now.last() == parts@[i as int]@);
            if i == 0 {
                assert(out@ =~= now[0]);
            }
        }
        i = i + 1;
    }
    assert(all.take(all.len() as int) =~= all);
    out
}

/// A joined text is blank only if its parts are: a part that is not blank stays so.
pub proof fn lemma_joined_not_blank(parts: Seq<Seq<char>>, sep: Seq<char>, i: int)
    requires
        0 <= i < parts.len(),
        !is_blank(parts[i]),
    ensures
        !is_blank(joined(parts, sep)),
    decreases parts.len(),
{
    let all = joined(parts, sep);
    if parts.len() > 1 {
        let front = joined(parts.drop_last(), sep);
        if i == parts.len() - 1 {
            let k = choose|k: int| 0 <= k < parts[i].len() && !is_space(#[trigger] parts[i][k]);
            assert(all[front.len() + sep.len() + k] == parts[i][k]);
        } else {
            lemma_joined_not_blank(parts.drop_last(), sep, i);
            let k = choose|k: int| 0 <= k < front.len() && !is_space(#[trigger] front[k]);
            assert(all[k] == front[k]);
        }
    }
}

/// The character of a number below sixteen in hexadecimal, with small letters.
pub open spec fn hex_digit(d: int) -> char {
    if d < 10 {
        digit(d as nat)
    } else if d == 10 {
        'a'
    } else if d == 11 {
        'b'
    } else if d == 12 {
        'c'
    } else if d == 13 {
        'd'
    } else if d == 14 {
        'e'
    } else {
        'f'
    }
}

/// The bytes in hexadecimal, two digits each.
pub open spec fn hex(bytes: Seq<u8>) -> Seq<char> {
    Seq::new(
        2 * bytes.len(),
        |i: int|
            if i % 2 == 0 {
                hex_digit(bytes[i / 2] as int / 16)
            } else {
                hex_digit(bytes[i / 2] as int % 16)
            },
    )
}

fn hex_char(d: u8) -> (r: char)
    requires
        d < 16,
    ensures
        r == hex_digit(d as int),
{
    if d == 0 {
        '0'
    } else if d == 1 {
        '1'
    } else if d == 2 {
        '2'
    } else if d == 3 {
        '3'
    } else if d == 4 {
        '4'
    } else if d == 5 {
        '5'
    } else if d == 6 {
        '6'
    } else if d == 7 {
        '7'
    } else if d == 8 {
        '8'
    } else if d == 9 {
        '9'
    } else if d == 10 {
        'a'
    } else if d == 11 {
        'b'
    } else if d == 12 {
        'c'
    } else if d == 13 {
        'd'
    } else if d == 14 {
        'e'
    } else {
        'f'
    }
}

/// The bytes in hexadecimal, two digits each.
pub fn hex_text(bytes: &Vec<u8>) -> (r: String)
    ensures
        r@ == hex(bytes@),
{
    let mut out = String::new();
    let mut i: usize = 0;
    while i < bytes.len()
        invariant
            i <= bytes@.len(),
            out@ == hex(bytes@.take(i as int)),
        decreases bytes@.len() - i,
    {
        let b: u8 = bytes[i];
        out.push(hex_char(b / 16));
        out.push(hex_char(b % 16));
        proof {
            let now = bytes@.take(i + 1);
            assert(forall|k: int| 0 <= k < i ==> now[k] == bytes@.take(i as int)[k]);
            assert(now[i as int] == b);
            assert(out@ =~= hex(now));
        }
        i = i + 1;
    }
    assert(bytes@.take(bytes@.len() as int) =~= bytes@);
    out
}

/// White space is the six ends of lines and columns, the spaces of all widths, and the marks that
/// part lines and paragraphs.
pub proof fn law_white_space(c: char)
    ensures
        is_space(c) <==> c == '\t' || c == '\n' || c == '\u{b}' || c == '\u{c}' || c == '\r' || c
            == ' ' || c == '\u{85}' || c == '\u{a0}' || c == '\u{1680}' || ('\u{2000}' <= c && c
            <= '\u{200a}') || c == '\u{2028}' || c == '\u{2029}' || c == '\u{202f}' || c
            == '\u{205f}' || c == '\u{3000}',
{
}

/// A text between white space and with none at its own ends is what is left of the whole.
pub proof fn law_trimmed(a: Seq<char>, t: Seq<char>, b: Seq<char>)
    requires
        is_blank(a),
        is_blank(b),
        t.len() > 0 ==> !is_space(t[0]) && !is_space(t.last()),
    ensures
        trimmed(a + t + b) == t,
{
    let s = a + t + b;
    if t.len() > 0 {
        assert(s[a.len() as int] == t[0]);
        assert forall|i: int| 0 <= i < a.len() implies is_space(#[trigger] s[i]) by {
            assert(s[i] == a[i]);
        }
        lemma_leading_spaces_unique(s, a.len());
        assert(s[s.len() - b.len() - 1] == t.last());
        assert forall|i: int| s.len() - b.len() <= i < s.len() implies is_space(#[trigger] s[i]) by {
            assert(s[i] == b[i - a.len() - t.len()]);
        }
        lemma_trailing_spaces_unique(s, b.len());
        assert(trimmed(s) =~= t);
    } else {
        assert forall|i: int| 0 <= i < s.len() implies is_space(#[trigger] s[i]) by {
            if i < a.len() {
                assert(s[i] == a[i]);
            } else {
                assert(s[i] == b[i - a.len()]);
            }
        }
        assert(trimmed(s) =~= t);
    }
}

/// A text without white space is its only word; a blank text has none; and the words of two texts
/// with white space between them are those of the first and then those of the second.
pub proof fn law_words(a: Seq<char>, c: char, b: Seq<char>)
    requires
        is_space(c),
    ensures
        a.len() > 0 && (forall|i: int| 0 <= i < a.len() ==> !is_space(#[trigger] a[i])) ==> words(a)
            == seq![a],
        is_blank(a) ==> words(a).len() == 0,
        words(a + seq![c] + b) == words(a) + words(b),
    decreases a.len(),
{
    let s = a + seq![c] + b;
    lemma_words(a);
    let k = leading_spaces(a);
    lemma_leading_spaces(a);
    if a.len() > 0 && (forall|i: int| 0 <= i < a.len() ==> !is_space(#[trigger] a[i])) {
        assert(k == 0);
        assert(a.skip(0) =~= a);
        lemma_word_length_unique(a, a.len());
        assert(a.take(a.len() as int) =~= a);
        assert(a.skip(a.len() as int) =~= Seq::empty());
        lemma_words(Seq::empty());
        assert(words(a) =~= seq![a]);
    }
    if is_blank(a) {
        lemma_words_after_spaces(a + seq![c], b);
        assert(words(a) + words(b) =~= words(b));
    } else {
        let t = a.skip(k as int);
        assert(t[0] == a[k as int]);
        let n = word_length(t);
        lemma_word_length(t);
        let rest = t.skip(n as int);
        assert(rest.len() < a.len());
        law_words(rest, c, b);
        // The first word of `a` is the first word of the whole.
        let u = s.skip(k as int);
        assert forall|i: int| 0 <= i < k implies is_space(#[trigger] s[i]) by {
            assert(s[i] == a[i]);
        }
        assert(s[k as int] == a[k as int]);
        lemma_leading_spaces_unique(s, k);
        assert forall|i: int| 0 <= i < n implies !is_space(#[trigger] u[i]) by {
            assert(u[i] == t[i]);
        }
        if n < t.len() {
            assert(u[n as int] == t[n as int]);
        } else {
            assert(u[n as int] == c);
        }
        lemma_word_length_unique(u, n);
        assert(u.take(n as int) =~= t.take(n as int));
        assert(u.skip(n as int) =~= rest + seq![c] + b);
        assert(words(s) =~= words(a) + words(b));
    }
}

proof fn lemma_words_after_spaces(a: Seq<char>, b: Seq<char>)
    requires
        is_blank(a),
    ensures
        words(a + b) == words(b),
{
    let s = a + b;
    let k = leading_spaces(b);
    lemma_leading_spaces(b);
    assert forall|i: int| 0 <= i < a.len() + k implies is_space(#[trigger] s[i]) by {
        if i < a.len() {
            assert(s[i] == a[i]);
        } else {
            assert(s[i] == b[i - a.len()]);
        }
    }
    if k < b.len() {
        assert(s[(a.len() + k) as int] == b[k as int]);
    }
    lemma_leading_spaces_unique(s, a.len() + k);
    assert(s.skip((a.len() + k) as int) =~= b.skip(k as int));
}

/// Of two texts that are alike up to a place the one that ends there comes first, and else the one
/// with the smaller character there.
pub proof fn law_text_order(a: Seq<char>, b: Seq<char>, n: int)
    requires
        0 <= n <= a.len(),
        n <= b.len(),
        a.take(n) == b.take(n),
        n < a.len() && n < b.len() ==> a[n] != b[n],
    ensures
        n == a.len() && n < b.len() ==> text_lt(a, b) && !text_lt(b, a),
        n < a.len() && n < b.len() ==> (text_lt(a, b) <==> a[n] < b[n]),
    decreases n,
{
    if n > 0 {
        assert(a.take(n)[0] == a[0]);
        assert(b.take(n)[0] == b[0]);
        let x = a.drop_first();
        let y = b.drop_first();
        assert(x.take(n - 1) =~= a.take(n).drop_first());
        assert(y.take(n - 1) =~= b.take(n).drop_first());
        law_text_order(x, y, n - 1);
    }
}

/// The number that digits stand for.
pub open spec fn read_decimal(s: Seq<char>) -> int
    decreases s.len(),
{
    if s.len() == 0 {
        0
    } else {
        10 * read_decimal(s.drop_last()) + (s.last() as int - '0' as int)
    }
}

/// A number that is written in decimal is read back, and it is written without a zero in front.
pub proof fn law_decimal_is_read_back(n: nat)
    ensures
        read_decimal(decimal(n)) == n,
        decimal(n).len() > 0,
        n > 0 ==> decimal(n)[0] != '0',
    decreases n,
{
    let s = decimal(n);
    if n < 10 {
        assert(s.drop_last() =~= Seq::empty());
        assert(read_decimal(Seq::empty()) == 0);
    } else {
        law_decimal_is_read_back(n / 10);
        assert(s.drop_last() =~= decimal(n / 10));
        assert(s[0] == decimal(n / 10)[0]);
    }
}

/// The number that a hexadecimal digit in small letters stands for.
pub open spec fn read_hex(c: char) -> int {
    if '0' <= c && c <= '9' {
        c as int - '0' as int
    } else if 'a' <= c && c <= 'f' {
        c as int - 'a' as int + 10
    } else {
        -1
    }
}

/// Whether two characters are the hexadecimal digits of a byte, the higher one first.
pub open spec fn is_hex_of(high: char, low: char, byte: u8) -> bool {
    &&& 0 <= read_hex(high) < 16
    &&& 0 <= read_hex(low) < 16
    &&& 16 * read_hex(high) + read_hex(low) == byte
}

/// A byte in hexadecimal is read back: it is two digits, the higher one first.
pub proof fn law_hex_is_read_back(bytes: Seq<u8>, i: int)
    requires
        0 <= i < bytes.len(),
    ensures
        hex(bytes).len() == 2 * bytes.len(),
        is_hex_of(hex(bytes)[2 * i], hex(bytes)[2 * i + 1], bytes[i]),
{
    let b = bytes[i] as int;
    let even = 2 * i;
    let odd = 2 * i + 1;
    assert(even / 2 == i && even % 2 == 0);
    assert(odd / 2 == i && odd % 2 == 1);
    assert(hex(bytes)[even] == hex_digit(b / 16));
    assert(hex(bytes)[odd] == hex_digit(b % 16));
    lemma_hex_digit(b / 16);
    lemma_hex_digit(b % 16);
    assert(16 * (b / 16) + b % 16 == b);
}

proof fn lemma_hex_digit(d: int)
    requires
        0 <= d < 16,
    ensures
        read_hex(hex_digit(d)) == d,
{
}

/// One text joined is that text, and two lists of texts joined are the two joined lists with the
/// separator between them.
pub proof fn law_joined(a: Seq<Seq<char>>, b: Seq<Seq<char>>, sep: Seq<char>)
    ensures
        a.len() == 1 ==> joined(a, sep) == a[0],
        a.len() == 0 ==> joined(a, sep).len() == 0,
        a.len() > 0 && b.len() > 0 ==> joined(a + b, sep) == joined(a, sep) + sep + joined(b, sep),
    decreases b.len(),
{
    if a.len() > 0 && b.len() > 0 {
        let all = a + b;
        let front = b.drop_last();
        assert(all.drop_last() =~= a + front);
        assert(all.last() == b.last());
        if front.len() > 0 {
            law_joined(a, front, sep);
        } else {
            assert(a + front =~= a);
        }
        assert(joined(all, sep) =~= joined(a, sep) + sep + joined(b, sep));
    }
}

} // verus!
