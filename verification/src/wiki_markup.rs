//! What becomes of the markup of a wiki text when the text is cleaned, character by character.
//!
//! The patterns of the cleaner are read by `regex`. [`patterns_are_read`] says what each of them
//! finds in a text; the laws here say what follows for the cleaned text.
use vstd::prelude::*;
use vstd::string::*;

use crate::mediawiki;
use crate::text;

verus! {

/// Whether a character does not occur in a text.
pub open spec fn lacks(s: Seq<char>, c: char) -> bool {
    forall|i: int| 0 <= i < s.len() ==> #[trigger] s[i] != c
}

/// Whether two characters stand at a place of a text, one after the other.
pub open spec fn is_pair(s: Seq<char>, i: int, c: char, d: char) -> bool {
    0 <= i < s.len() - 1 && s[i] == c && s[i + 1] == d
}

/// Whether a character is nowhere in a text followed by another.
pub open spec fn lacks_pair(s: Seq<char>, c: char, d: char) -> bool {
    forall|i: int| !#[trigger] is_pair(s, i, c, d)
}

/// Whether a mark stands at a place of a text.
pub open spec fn stands_at(s: Seq<char>, mark: Seq<char>, i: int) -> bool {
    0 <= i && i + mark.len() <= s.len() && s.subrange(i, i + mark.len() as int) == mark
}

/// Whether a mark stands at a place of a text, and at none from `from` up to it.
pub open spec fn is_first(s: Seq<char>, mark: Seq<char>, from: int, i: int) -> bool {
    &&& from <= i
    &&& stands_at(s, mark, i)
    &&& forall|j: int| from <= j < i ==> !#[trigger] stands_at(s, mark, j)
}

/// The first place of a mark in a text from `from` on.
#[verifier::opaque]
pub open spec fn first_at(s: Seq<char>, mark: Seq<char>, from: int) -> Option<int> {
    if exists|i: int| is_first(s, mark, from, i) {
        Some(choose|i: int| is_first(s, mark, from, i))
    } else {
        None
    }
}

/// A text with a space in place of every piece from an opening mark to the next closing mark,
/// whatever characters stand between them.
#[verifier::opaque]
pub open spec fn pieces_out(s: Seq<char>, open: Seq<char>, close: Seq<char>) -> Seq<char>
    decreases s.len(),
{
    match first_at(s, open, 0) {
        None => s,
        Some(i) => match first_at(s, close, i + open.len()) {
            None => s,
            Some(j) => if 0 < j + close.len() <= s.len() {
                s.take(i) + " "@ + pieces_out(s.skip(j + close.len() as int), open, close)
            } else {
                s
            },
        },
    }
}

/// A reference, with or without attributes.
pub open spec fn reference(attributes: Seq<char>, note: Seq<char>) -> Seq<char> {
    "<ref"@ + attributes + ">"@ + note + "</ref>"@
}

/// A reference with its name in capital letters.
pub open spec fn capital_reference(attributes: Seq<char>, note: Seq<char>) -> Seq<char> {
    "<REF"@ + attributes + ">"@ + note + "</REF>"@
}

/// A reference without a note.
pub open spec fn empty_reference(attributes: Seq<char>) -> Seq<char> {
    "<ref"@ + attributes + "/>"@
}

/// A link to a page, by its name.
pub open spec fn link(name: Seq<char>) -> Seq<char> {
    "[["@ + name + "]]"@
}

/// Whether a name of a namespace is one of files.
pub open spec fn is_file_space(name: Seq<char>) -> bool {
    name == "ファイル"@ || name == "画像"@ || name == "File"@ || name == "Image"@
}

/// Whether a name of a namespace is one of categories.
pub open spec fn is_category_space(name: Seq<char>) -> bool {
    name == "Category"@ || name == "カテゴリ"@
}

/// A link to a page in a namespace.
pub open spec fn space_link(space: Seq<char>, name: Seq<char>) -> Seq<char> {
    link(space + ":"@ + name)
}

/// A link to a page, under a label.
pub open spec fn labelled_link(name: Seq<char>, label: Seq<char>) -> Seq<char> {
    link(name + "|"@ + label)
}

/// A link to an address, under a label.
pub open spec fn address_link(scheme: Seq<char>, rest: Seq<char>, label: Seq<char>) -> Seq<char> {
    "["@ + scheme + rest + " "@ + label + "]"@
}

/// Whether a text is markup that stands for nothing: a run of two or more quotes or of two or more
/// equals signs, a tag or a hard space.
pub open spec fn is_mark(s: Seq<char>) -> bool {
    ||| s.len() >= 2 && forall|i: int| 0 <= i < s.len() ==> #[trigger] s[i] == '\''
    ||| s.len() >= 2 && forall|i: int| 0 <= i < s.len() ==> #[trigger] s[i] == '='
    ||| is_tag(s)
    ||| s == "&nbsp;"@
}

/// Whether a text is a tag.
pub open spec fn is_tag(s: Seq<char>) -> bool {
    &&& s.len() >= 3
    &&& s[0] == '<'
    &&& s.last() == '>'
    &&& forall|i: int| 1 <= i < s.len() - 1 ==> #[trigger] s[i] != '>' && s[i] != '<'
}

/// Whether a character is a space or ends a line or a column.
pub open spec fn is_gap(c: char) -> bool {
    c == ' ' || c == '\t' || c == '\r' || c == '\n'
}

/// Whether a text has no such character.
pub open spec fn has_no_gap(s: Seq<char>) -> bool {
    forall|i: int| 0 <= i < s.len() ==> !is_gap(#[trigger] s[i])
}

/// Whether a text has no character that begins markup of the last kind.
pub open spec fn has_no_mark(s: Seq<char>) -> bool {
    lacks(s, '\'') && lacks(s, '=') && lacks(s, '<') && lacks(s, '&')
}

/// Whether templates and comments become a space, from their opening to the next closing mark, on
/// however many lines they stand.
#[verifier::opaque]
pub open spec fn pieces_are_read() -> bool {
    &&& forall|s: Seq<char>| #[trigger]
        mediawiki::replaced("(?s)\\{\\{.*?\\}\\}"@, s, " "@) == pieces_out(s, "{{"@, "}}"@)
    &&& forall|s: Seq<char>| #[trigger]
        mediawiki::replaced("(?s)<!--.*?-->"@, s, " "@) == pieces_out(s, "<!--"@, "-->"@)
}

/// Whether references become a space, on however many lines and in whatever letters they stand.
#[verifier::opaque]
pub open spec fn references_are_read() -> bool {
    &&& forall|s: Seq<char>|
        lacks_pair(s, '<', 'r') && lacks_pair(s, '<', 'R') ==> #[trigger] mediawiki::replaced(
            "(?is)<ref[^>]*>.*?</ref>|<ref[^>]*/>"@,
            s,
            " "@,
        ) == s
    &&& forall|a: Seq<char>, x: Seq<char>, b: Seq<char>, c: Seq<char>|
        lacks(a, '<') && lacks(x, '<') && lacks(x, '>') && lacks(b, '<') && lacks(c, '<')
            ==> #[trigger] mediawiki::replaced(
            "(?is)<ref[^>]*>.*?</ref>|<ref[^>]*/>"@,
            a + reference(x, b) + c,
            " "@,
        ) == a + " "@ + c
    &&& forall|a: Seq<char>, x: Seq<char>, b: Seq<char>, c: Seq<char>|
        lacks(a, '<') && lacks(x, '<') && lacks(x, '>') && lacks(b, '<') && lacks(c, '<')
            ==> #[trigger] mediawiki::replaced(
            "(?is)<ref[^>]*>.*?</ref>|<ref[^>]*/>"@,
            a + capital_reference(x, b) + c,
            " "@,
        ) == a + " "@ + c
    &&& forall|a: Seq<char>, x: Seq<char>, c: Seq<char>|
        lacks(a, '<') && lacks(x, '<') && lacks(x, '>') && lacks(c, '<') ==> #[trigger] mediawiki::replaced(
            "(?is)<ref[^>]*>.*?</ref>|<ref[^>]*/>"@,
            a + empty_reference(x) + c,
            " "@,
        ) == a + " "@ + c
}

/// Whether links to files and categories become a space.
#[verifier::opaque]
pub open spec fn space_links_are_read() -> bool {
    &&& forall|s: Seq<char>|
        lacks_pair(s, '[', '[') || lacks(s, ':') ==> #[trigger] mediawiki::replaced(
            "\\[\\[(?:ファイル|画像|File|Image):[^\\]]+\\]\\]"@,
            s,
            " "@,
        ) == s
    &&& forall|s: Seq<char>|
        lacks_pair(s, '[', '[') || lacks(s, ':') ==> #[trigger] mediawiki::replaced(
            "\\[\\[(?:Category|カテゴリ):[^\\]]+\\]\\]"@,
            s,
            " "@,
        ) == s
    &&& forall|a: Seq<char>, space: Seq<char>, b: Seq<char>, c: Seq<char>|
        lacks(a, '[') && lacks(b, ']') && lacks(b, '[') && b.len() > 0 && lacks(c, '[')
            && is_file_space(space) ==> #[trigger] mediawiki::replaced(
            "\\[\\[(?:ファイル|画像|File|Image):[^\\]]+\\]\\]"@,
            a + space_link(space, b) + c,
            " "@,
        ) == a + " "@ + c
    &&& forall|a: Seq<char>, space: Seq<char>, b: Seq<char>, c: Seq<char>|
        lacks(a, '[') && lacks(b, ']') && lacks(b, '[') && b.len() > 0 && lacks(c, '[')
            && is_category_space(space) ==> #[trigger] mediawiki::replaced(
            "\\[\\[(?:ファイル|画像|File|Image):[^\\]]+\\]\\]"@,
            a + space_link(space, b) + c,
            " "@,
        ) == a + space_link(space, b) + c
    &&& forall|a: Seq<char>, space: Seq<char>, b: Seq<char>, c: Seq<char>|
        lacks(a, '[') && lacks(b, ']') && lacks(b, '[') && b.len() > 0 && lacks(c, '[')
            && is_category_space(space) ==> #[trigger] mediawiki::replaced(
            "\\[\\[(?:Category|カテゴリ):[^\\]]+\\]\\]"@,
            a + space_link(space, b) + c,
            " "@,
        ) == a + " "@ + c
}

/// Whether other links become their labels, or the names that they hold.
#[verifier::opaque]
pub open spec fn links_are_read() -> bool {
    &&& forall|s: Seq<char>|
        lacks(s, '[') || lacks_pair(s, ':', '/') ==> #[trigger] mediawiki::replaced(
            "\\[(https?://[^\\s\\]]+)\\s+([^\\]]+)\\]"@,
            s,
            "$2"@,
        ) == s
    &&& forall|s: Seq<char>|
        lacks_pair(s, '[', '[') || lacks(s, '|') ==> #[trigger] mediawiki::replaced(
            "\\[\\[[^|\\]]+\\|([^\\]]+)\\]\\]"@,
            s,
            "$1"@,
        ) == s
    &&& forall|s: Seq<char>|
        lacks_pair(s, '[', '[') ==> #[trigger] mediawiki::replaced(
            "\\[\\[([^\\]]+)\\]\\]"@,
            s,
            "$1"@,
        ) == s
    &&& forall|
        a: Seq<char>,
        scheme: Seq<char>,
        u: Seq<char>,
        label: Seq<char>,
        c: Seq<char>,
    |
        lacks(a, '[') && (scheme == "http://"@ || scheme == "https://"@) && is_address(u)
            && is_label(label) && lacks(c, '[') ==> #[trigger] mediawiki::replaced(
            "\\[(https?://[^\\s\\]]+)\\s+([^\\]]+)\\]"@,
            a + address_link(scheme, u, label) + c,
            "$2"@,
        ) == a + label + c
    &&& forall|a: Seq<char>, name: Seq<char>, label: Seq<char>, c: Seq<char>|
        lacks(a, '[') && is_label(name) && lacks(name, '|') && is_label(label) && lacks(c, '[')
            ==> #[trigger] mediawiki::replaced(
            "\\[\\[[^|\\]]+\\|([^\\]]+)\\]\\]"@,
            a + labelled_link(name, label) + c,
            "$1"@,
        ) == a + label + c
    &&& forall|a: Seq<char>, name: Seq<char>, c: Seq<char>|
        lacks(a, '[') && is_label(name) && lacks(c, '[') ==> #[trigger] mediawiki::replaced(
            "\\[\\[([^\\]]+)\\]\\]"@,
            a + link(name) + c,
            "$1"@,
        ) == a + name + c
}

/// Whether a text can be the rest of an address.
pub open spec fn is_address(u: Seq<char>) -> bool {
    &&& u.len() > 0
    &&& lacks(u, '[') && lacks(u, ']')
    &&& forall|i: int| 0 <= i < u.len() ==> !text::is_space(#[trigger] u[i])
}

/// Whether a text can be the label of a link.
pub open spec fn is_label(s: Seq<char>) -> bool {
    s.len() > 0 && !text::is_space(s[0]) && lacks(s, '[') && lacks(s, ']')
}

/// Whether the rest of the markup becomes a space, and so does every run of spaces and ends of
/// lines and columns.
#[verifier::opaque]
pub open spec fn marks_are_read() -> bool {
    &&& forall|s: Seq<char>|
        has_no_mark(s) ==> #[trigger] mediawiki::replaced(
            "'{2,}|={2,}|<[^>]+>|&nbsp;"@,
            s,
            " "@,
        ) == s
    &&& forall|a: Seq<char>, m: Seq<char>, c: Seq<char>|
        has_no_mark(a) && is_mark(m) && has_no_mark(c) ==> #[trigger] mediawiki::replaced(
            "'{2,}|={2,}|<[^>]+>|&nbsp;"@,
            a + m + c,
            " "@,
        ) == a + " "@ + c
    &&& forall|a: Seq<char>, gap: Seq<char>, c: Seq<char>|
        has_no_gap(a) && gap.len() > 0 && (forall|i: int|
            0 <= i < gap.len() ==> is_gap(#[trigger] gap[i])) && has_no_gap(c)
            ==> #[trigger] mediawiki::replaced("[ \\t\\r\\n]+"@, a + gap + c, " "@) == a + " "@ + c
    &&& forall|s: Seq<char>| is_squeezed(#[trigger] mediawiki::replaced("[ \\t\\r\\n]+"@, s, " "@))
}

/// Whether a text has no ends of lines or columns, and no two spaces one after the other.
pub open spec fn is_squeezed(s: Seq<char>) -> bool {
    lacks(s, '\t') && lacks(s, '\r') && lacks(s, '\n') && lacks_pair(s, ' ', ' ')
}

/// What the patterns of the cleaner find in a text.
pub open spec fn patterns_are_read() -> bool {
    pieces_are_read() && references_are_read() && space_links_are_read() && links_are_read()
        && marks_are_read()
}

/// What the step at `k` makes of a text.
spec fn stepped(s: Seq<char>, k: int) -> Seq<char> {
    mediawiki::replaced(mediawiki::cleaning_steps()[k].0, s, mediawiki::cleaning_steps()[k].1)
}

/// A text after the first `k` steps.
spec fn after(s: Seq<char>, k: int) -> Seq<char> {
    mediawiki::after_replacements(s, mediawiki::cleaning_steps().take(k))
}

proof fn lemma_after(s: Seq<char>, k: int)
    requires
        0 <= k < 13,
    ensures
        after(s, 0) == s,
        after(s, k + 1) == stepped(after(s, k), k),
{
    let steps = mediawiki::cleaning_steps();
    assert(steps.take(k + 1).drop_last() =~= steps.take(k));
    assert(steps.take(k + 1).last() == steps[k]);
}

proof fn lemma_untouched(s: Seq<char>, k: int)
    requires
        0 <= k <= 13,
        forall|m: int| 0 <= m < k ==> #[trigger] stepped(s, m) == s,
    ensures
        after(s, k) == s,
    decreases k,
{
    if k > 0 {
        lemma_untouched(s, k - 1);
        lemma_after(s, k - 1);
        assert(stepped(s, k - 1) == s);
    } else {
        lemma_after(s, 0);
    }
}

proof fn lemma_same_rest(s: Seq<char>, t: Seq<char>, k: int)
    requires
        0 <= k <= 13,
        after(s, k) == after(t, k),
    ensures
        mediawiki::cleaned(s) == mediawiki::cleaned(t),
    decreases 13 - k,
{
    if k < 13 {
        lemma_after(s, k);
        lemma_after(t, k);
        lemma_same_rest(s, t, k + 1);
    } else {
        assert(mediawiki::cleaning_steps().take(13) =~= mediawiki::cleaning_steps());
    }
}

/// Two texts of which the first becomes the second at a step, while no earlier step touches either
/// of them, are cleaned alike.
proof fn lemma_one_step(s: Seq<char>, t: Seq<char>, k: int)
    requires
        0 <= k < 13,
        forall|m: int| 0 <= m < k ==> #[trigger] stepped(s, m) == s,
        forall|m: int| 0 <= m <= k ==> #[trigger] stepped(t, m) == t,
        stepped(s, k) == t,
    ensures
        mediawiki::cleaned(s) == mediawiki::cleaned(t),
{
    lemma_untouched(s, k);
    lemma_untouched(t, k);
    lemma_after(s, k);
    lemma_after(t, k);
    assert(stepped(t, k) == t);
    lemma_same_rest(s, t, k + 1);
}

proof fn lemma_first_at(s: Seq<char>, mark: Seq<char>, from: int, i: int)
    requires
        is_first(s, mark, from, i),
    ensures
        first_at(s, mark, from) == Some(i),
{
    reveal(first_at);
    let x = choose|x: int| is_first(s, mark, from, x);
    assert(is_first(s, mark, from, x));
    if x < i {
        assert(!stands_at(s, mark, x));
    }
    if i < x {
        assert(!stands_at(s, mark, i));
    }
}

proof fn lemma_no_pieces(s: Seq<char>, open: Seq<char>, close: Seq<char>)
    requires
        open.len() >= 2,
        lacks_pair(s, open[0], open[1]),
    ensures
        pieces_out(s, open, close) == s,
{
    reveal(pieces_out);
    reveal(first_at);
    if exists|i: int| is_first(s, open, 0, i) {
        let i = choose|i: int| is_first(s, open, 0, i);
        assert(is_first(s, open, 0, i));
        let seen = s.subrange(i, i + open.len() as int);
        assert(seen[0] == s[i] && seen[1] == s[i + 1]);
        assert(is_pair(s, i, open[0], open[1]));
    }
}

proof fn lemma_piece_goes(s: Seq<char>, open: Seq<char>, close: Seq<char>, i: int, j: int)
    requires
        first_at(s, open, 0) == Some(i),
        first_at(s, close, i + open.len()) == Some(j),
        0 < j + close.len() <= s.len(),
    ensures
        pieces_out(s, open, close) == s.take(i) + " "@ + pieces_out(
            s.skip(j + close.len() as int),
            open,
            close,
        ),
{
    reveal(pieces_out);
}

/// The parts of a text that is put together of five.
proof fn lemma_five_parts(
    a: Seq<char>,
    open: Seq<char>,
    b: Seq<char>,
    close: Seq<char>,
    c: Seq<char>,
)
    ensures
        ({
            let s = a + open + b + close + c;
            let i = a.len() as int;
            let j = i + open.len() + b.len();
            &&& s.len() == j + close.len() + c.len()
            &&& s.take(i) == a
            &&& s.subrange(i, i + open.len() as int) == open
            &&& s.subrange(j, j + close.len() as int) == close
            &&& s.skip(j + close.len() as int) == c
            &&& forall|x: int| 0 <= x < i ==> #[trigger] s[x] == a[x]
            &&& forall|x: int|
                i + open.len() <= x < j ==> #[trigger] s[x] == b[x - i - open.len()]
        }),
{
    let s = a + open + b + close + c;
    let i = a.len() as int;
    let j = i + open.len() + b.len();
    assert(s.take(i) =~= a);
    assert(s.subrange(i, i + open.len() as int) =~= open);
    assert(s.subrange(j, j + close.len() as int) =~= close);
    assert(s.skip(j + close.len() as int) =~= c);
}

proof fn lemma_one_piece(
    a: Seq<char>,
    b: Seq<char>,
    c: Seq<char>,
    open: Seq<char>,
    close: Seq<char>,
)
    requires
        open.len() >= 2,
        close.len() > 0,
        lacks(a, open[0]),
        lacks(c, open[0]),
        forall|x: int|
            a.len() + open.len() <= x < a.len() + open.len() + b.len() ==> !#[trigger] stands_at(
                a + open + b + close + c,
                close,
                x,
            ),
    ensures
        pieces_out(a + open + b + close + c, open, close) == a + " "@ + c,
{
    let s = a + open + b + close + c;
    let i = a.len() as int;
    let j = i + open.len() + b.len();
    lemma_five_parts(a, open, b, close, c);
    assert(is_first(s, open, 0, i)) by {
        assert forall|x: int| 0 <= x < i implies !#[trigger] stands_at(s, open, x) by {
            if stands_at(s, open, x) {
                assert(s.subrange(x, x + open.len() as int)[0] == s[x]);
                assert(s[x] == a[x]);
            }
        }
    }
    lemma_first_at(s, open, 0, i);
    assert(is_first(s, close, i + open.len(), j));
    lemma_first_at(s, close, i + open.len(), j);
    lemma_piece_goes(s, open, close, i, j);
    assert(lacks_pair(c, open[0], open[1]));
    lemma_no_pieces(c, open, close);
}

proof fn lemma_no_early_begin(head: Seq<char>, b: Seq<char>, close: Seq<char>, c: Seq<char>, x: int)
    requires
        close.len() > 0,
        lacks(b, close[0]),
        head.len() <= x < head.len() + b.len(),
    ensures
        !stands_at(head + b + close + c, close, x),
{
    let s = head + b + close + c;
    if stands_at(s, close, x) {
        assert(s.subrange(x, x + close.len() as int)[0] == s[x]);
        assert(s[x] == b[x - head.len()]);
    }
}

proof fn lemma_template(a: Seq<char>, b: Seq<char>, c: Seq<char>)
    requires
        lacks(a, '{'),
        lacks(b, '}'),
        lacks(c, '{'),
    ensures
        pieces_out(a + "{{"@ + b + "}}"@ + c, "{{"@, "}}"@) == a + " "@ + c,
{
    lemma_marks_of_pieces();
    let head = a + "{{"@;
    assert forall|x: int| head.len() <= x < head.len() + b.len() implies !#[trigger] stands_at(
        a + "{{"@ + b + "}}"@ + c,
        "}}"@,
        x,
    ) by {
        lemma_no_early_begin(head, b, "}}"@, c, x);
    }
    lemma_one_piece(a, b, c, "{{"@, "}}"@);
}

proof fn lemma_no_early_end(head: Seq<char>, b: Seq<char>, close: Seq<char>, c: Seq<char>, x: int)
    requires
        close.len() == 3,
        close[0] != close[2],
        close[1] != close[2],
        lacks(b, close[2]),
        head.len() <= x < head.len() + b.len(),
    ensures
        !stands_at(head + b + close + c, close, x),
{
    let s = head + b + close + c;
    if stands_at(s, close, x) {
        let y = x + 2 - head.len();
        assert(s.subrange(x, x + 3)[2] == s[x + 2]);
        assert(s[x + 2] == (b + close)[y]);
        if y < b.len() {
            assert((b + close)[y] == b[y]);
        } else {
            assert((b + close)[y] == close[y - b.len()]);
        }
    }
}

proof fn lemma_comment(a: Seq<char>, b: Seq<char>, c: Seq<char>)
    requires
        lacks(a, '<'),
        lacks(b, '>'),
        lacks(c, '<'),
    ensures
        pieces_out(a + "<!--"@ + b + "-->"@ + c, "<!--"@, "-->"@) == a + " "@ + c,
{
    lemma_marks_of_pieces();
    let head = a + "<!--"@;
    assert forall|x: int| head.len() <= x < head.len() + b.len() implies !#[trigger] stands_at(
        a + "<!--"@ + b + "-->"@ + c,
        "-->"@,
        x,
    ) by {
        lemma_no_early_end(head, b, "-->"@, c, x);
    }
    lemma_one_piece(a, b, c, "<!--"@, "-->"@);
}

proof fn lemma_marks_of_pieces()
    ensures
        "{{"@ == seq!['{', '{'],
        "}}"@ == seq!['}', '}'],
        "<!--"@ == seq!['<', '!', '-', '-'],
        "-->"@ == seq!['-', '-', '>'],
        " "@ == seq![' '],
{
    reveal_strlit("{{");
    reveal_strlit("}}");
    reveal_strlit("<!--");
    reveal_strlit("-->");
    reveal_strlit(" ");
    assert("{{"@ =~= seq!['{', '{']);
    assert("}}"@ =~= seq!['}', '}']);
    assert("<!--"@ =~= seq!['<', '!', '-', '-']);
    assert("-->"@ =~= seq!['-', '-', '>']);
    assert(" "@ =~= seq![' ']);
}

/// A template is read as a space, whatever it holds and on however many lines it stands: a text
/// with a template is cleaned as the text with a space in its place.
pub proof fn law_templates_become_spaces(a: Seq<char>, b: Seq<char>, c: Seq<char>)
    requires
        lacks(a, '{') && lacks(a, '}'),
        lacks(b, '{') && lacks(b, '}'),
        lacks(c, '{') && lacks(c, '}'),
    ensures
        patterns_are_read() ==> mediawiki::cleaned(a + "{{"@ + b + "}}"@ + c)
            == mediawiki::cleaned(a + " "@ + c),
{
    if patterns_are_read() {
        let s = a + "{{"@ + b + "}}"@ + c;
        let t = a + " "@ + c;
        lemma_marks_of_pieces();
        lemma_template(a, b, c);
        reveal(pieces_are_read);
        lemma_no_pieces(t, "{{"@, "}}"@);
        assert(stepped(s, 0) == t);
        assert(stepped(t, 0) == t);
        lemma_one_step(s, t, 0);
    }
}

/// No text that lacks what the first `k` steps look for is touched by them.
proof fn lemma_early_steps(s: Seq<char>, k: int)
    requires
        patterns_are_read(),
        0 <= k <= 13,
        lacks(s, '{'),
        k > 4 ==> lacks_pair(s, '<', '!'),
        k > 5 ==> lacks_pair(s, '<', 'r') && lacks_pair(s, '<', 'R'),
        k > 6 ==> lacks_pair(s, '[', '[') || lacks(s, ':'),
        k > 8 ==> lacks(s, '[') || lacks_pair(s, ':', '/'),
        k > 9 ==> lacks_pair(s, '[', '[') || lacks(s, '|'),
        k > 10 ==> lacks_pair(s, '[', '['),
        k > 11 ==> has_no_mark(s),
        k > 12 ==> stepped(s, 12) == s,
    ensures
        forall|m: int| 0 <= m < k ==> #[trigger] stepped(s, m) == s,
{
    lemma_marks_of_pieces();
    reveal(pieces_are_read);
    reveal(references_are_read);
    reveal(space_links_are_read);
    reveal(links_are_read);
    reveal(marks_are_read);
    assert(lacks_pair(s, '{', '{'));
    lemma_no_pieces(s, "{{"@, "}}"@);
    if k > 4 {
        lemma_no_pieces(s, "<!--"@, "-->"@);
    }
    assert forall|m: int| 0 <= m < k implies #[trigger] stepped(s, m) == s by {
        let steps = mediawiki::cleaning_steps();
        if m < 4 {
            assert(steps[m] == ("(?s)\\{\\{.*?\\}\\}"@, " "@));
        } else if m == 4 {
        } else if m == 5 {
        } else if m == 6 {
        } else if m == 7 {
        } else if m == 8 {
        } else if m == 9 {
        } else if m == 10 {
        } else if m == 11 {
        }
    }
}

/// A comment is read as a space, on however many lines it stands.
pub proof fn law_comments_become_spaces(a: Seq<char>, b: Seq<char>, c: Seq<char>)
    requires
        lacks(a, '{') && lacks(a, '<'),
        lacks(b, '{') && lacks(b, '>'),
        lacks(c, '{') && lacks(c, '<'),
    ensures
        patterns_are_read() ==> mediawiki::cleaned(a + "<!--"@ + b + "-->"@ + c)
            == mediawiki::cleaned(a + " "@ + c),
{
    if patterns_are_read() {
        let s = a + "<!--"@ + b + "-->"@ + c;
        let t = a + " "@ + c;
        lemma_marks_of_pieces();
        lemma_comment(a, b, c);
        reveal(pieces_are_read);
        assert(lacks_pair(t, '<', '!'));
        lemma_early_steps(s, 4);
        lemma_early_steps(t, 5);
        assert(stepped(s, 4) == t);
        lemma_one_step(s, t, 4);
    }
}

proof fn lemma_pair_concat(s: Seq<char>, t: Seq<char>, c: char, d: char)
    requires
        lacks_pair(s, c, d),
        lacks_pair(t, c, d),
        s.len() == 0 || t.len() == 0 || s.last() != c || t[0] != d,
    ensures
        lacks_pair(s + t, c, d),
{
    let whole = s + t;
    assert forall|i: int| !#[trigger] is_pair(whole, i, c, d) by {
        if is_pair(whole, i, c, d) {
            if i + 1 < s.len() {
                assert(is_pair(s, i, c, d));
            } else if i >= s.len() {
                assert(is_pair(t, i - s.len(), c, d));
            } else {
                assert(s.last() == c && t[0] == d);
            }
        }
    }
}

proof fn lemma_no_pair(s: Seq<char>, c: char, d: char)
    requires
        lacks(s, c) || lacks(s, d),
    ensures
        lacks_pair(s, c, d),
{
    assert forall|i: int| !#[trigger] is_pair(s, i, c, d) by {
        if is_pair(s, i, c, d) {
            assert(s[i] == c && s[i + 1] == d);
        }
    }
}

/// A reference between texts without tags holds no begin of a comment.
proof fn lemma_reference(
    a: Seq<char>,
    open: Seq<char>,
    x: Seq<char>,
    tail: Seq<char>,
    c: Seq<char>,
)
    requires
        lacks(a, '<'),
        lacks(x, '<'),
        lacks(c, '<'),
        open.len() == 4,
        open[0] == '<',
        open[1] == 'r' || open[1] == 'R',
        open[2] != '<' && open[3] != '<',
        lacks_pair(tail, '<', '!'),
        tail.len() > 0 && tail[0] != '!' && tail.last() != '<',
    ensures
        lacks_pair(a + (open + x + tail) + c, '<', '!'),
{
    lemma_no_pair(a, '<', '!');
    lemma_no_pair(x, '<', '!');
    lemma_no_pair(c, '<', '!');
    assert(lacks_pair(open, '<', '!'));
    lemma_pair_concat(open, x, '<', '!');
    lemma_pair_concat(open + x, tail, '<', '!');
    let r = open + x + tail;
    assert(r.last() == tail.last());
    lemma_pair_concat(a, r, '<', '!');
    assert((a + r).last() == r.last());
    lemma_pair_concat(a + r, c, '<', '!');
}

proof fn lemma_reference_texts()
    ensures
        "<ref"@ == seq!['<', 'r', 'e', 'f'],
        "<REF"@ == seq!['<', 'R', 'E', 'F'],
        ">"@ == seq!['>'],
        "/>"@ == seq!['/', '>'],
        "</ref>"@ == seq!['<', '/', 'r', 'e', 'f', '>'],
        "</REF>"@ == seq!['<', '/', 'R', 'E', 'F', '>'],
{
    reveal_strlit("<ref");
    reveal_strlit("<REF");
    reveal_strlit(">");
    reveal_strlit("/>");
    reveal_strlit("</ref>");
    reveal_strlit("</REF>");
    assert("<ref"@ =~= seq!['<', 'r', 'e', 'f']);
    assert("<REF"@ =~= seq!['<', 'R', 'E', 'F']);
    assert(">"@ =~= seq!['>']);
    assert("/>"@ =~= seq!['/', '>']);
    assert("</ref>"@ =~= seq!['<', '/', 'r', 'e', 'f', '>']);
    assert("</REF>"@ =~= seq!['<', '/', 'R', 'E', 'F', '>']);
}

proof fn lemma_reference_tail(b: Seq<char>, close: Seq<char>)
    requires
        lacks(b, '<'),
        close.len() == 6,
        close[0] == '<',
        close[1] == '/',
        close[5] == '>',
        lacks_pair(close, '<', '!'),
    ensures
        lacks_pair(">"@ + b + close, '<', '!'),
        (">"@ + b + close)[0] == '>',
        (">"@ + b + close).last() == '>',
{
    lemma_reference_texts();
    lemma_no_pair(">"@, '<', '!');
    lemma_no_pair(b, '<', '!');
    lemma_pair_concat(">"@, b, '<', '!');
    lemma_pair_concat(">"@ + b, close, '<', '!');
}

/// A reference is read as a space, with or without attributes, in small letters or capitals, on
/// however many lines it stands; and so is one without a note.
pub proof fn law_references_become_spaces(
    a: Seq<char>,
    x: Seq<char>,
    b: Seq<char>,
    c: Seq<char>,
)
    requires
        lacks(a, '{') && lacks(a, '<'),
        lacks(x, '{') && lacks(x, '<') && lacks(x, '>'),
        lacks(b, '{') && lacks(b, '<'),
        lacks(c, '{') && lacks(c, '<'),
    ensures
        patterns_are_read() ==> {
            &&& mediawiki::cleaned(a + reference(x, b) + c) == mediawiki::cleaned(a + " "@ + c)
            &&& mediawiki::cleaned(a + capital_reference(x, b) + c) == mediawiki::cleaned(
                a + " "@ + c,
            )
            &&& mediawiki::cleaned(a + empty_reference(x) + c) == mediawiki::cleaned(a + " "@ + c)
        },
{
    if patterns_are_read() {
        let t = a + " "@ + c;
        let small = a + reference(x, b) + c;
        let capital = a + capital_reference(x, b) + c;
        let empty = a + empty_reference(x) + c;
        lemma_marks_of_pieces();
        lemma_reference_texts();
        lemma_no_pair(t, '<', '!');
        lemma_no_pair(t, '<', 'r');
        lemma_no_pair(t, '<', 'R');
        lemma_early_steps(t, 6);
        assert(lacks_pair("</ref>"@, '<', '!'));
        assert(lacks_pair("</REF>"@, '<', '!'));
        lemma_reference_tail(b, "</ref>"@);
        lemma_reference_tail(b, "</REF>"@);
        lemma_reference(a, "<ref"@, x, ">"@ + b + "</ref>"@, c);
        lemma_reference(a, "<REF"@, x, ">"@ + b + "</REF>"@, c);
        assert("<ref"@ + x + (">"@ + b + "</ref>"@) =~= reference(x, b));
        assert("<REF"@ + x + (">"@ + b + "</REF>"@) =~= capital_reference(x, b));
        lemma_no_pair("/>"@, '<', '!');
        lemma_reference(a, "<ref"@, x, "/>"@, c);
        lemma_early_steps(small, 5);
        lemma_early_steps(capital, 5);
        lemma_early_steps(empty, 5);
        assert(stepped(small, 5) == t && stepped(capital, 5) == t && stepped(empty, 5) == t) by {
            reveal(references_are_read);
        }
        lemma_one_step(small, t, 5);
        lemma_one_step(capital, t, 5);
        lemma_one_step(empty, t, 5);
    }
}

proof fn lemma_link_texts()
    ensures
        "[["@ == seq!['[', '['],
        "]]"@ == seq![']', ']'],
        ":"@ == seq![':'],
        "|"@ == seq!['|'],
        "["@ == seq!['['],
        "]"@ == seq![']'],
        "http://"@ == seq!['h', 't', 't', 'p', ':', '/', '/'],
        "https://"@ == seq!['h', 't', 't', 'p', 's', ':', '/', '/'],
{
    reveal_strlit("[[");
    reveal_strlit("]]");
    reveal_strlit(":");
    reveal_strlit("|");
    reveal_strlit("[");
    reveal_strlit("]");
    reveal_strlit("http://");
    reveal_strlit("https://");
    assert("[["@ =~= seq!['[', '[']);
    assert("]]"@ =~= seq![']', ']']);
    assert(":"@ =~= seq![':']);
    assert("|"@ =~= seq!['|']);
    assert("["@ =~= seq!['[']);
    assert("]"@ =~= seq![']']);
    assert("http://"@ =~= seq!['h', 't', 't', 'p', ':', '/', '/']);
    assert("https://"@ =~= seq!['h', 't', 't', 'p', 's', ':', '/', '/']);
}

proof fn lemma_space_names(space: Seq<char>)
    requires
        is_file_space(space) || is_category_space(space),
    ensures
        lacks(space, '{') && lacks(space, '<'),
{
    reveal_strlit("ファイル");
    reveal_strlit("画像");
    reveal_strlit("File");
    reveal_strlit("Image");
    reveal_strlit("Category");
    reveal_strlit("カテゴリ");
}

proof fn lemma_lacks_concat(a: Seq<char>, b: Seq<char>, c: char)
    requires
        lacks(a, c),
        lacks(b, c),
    ensures
        lacks(a + b, c),
{
}

proof fn lemma_plain_link(a: Seq<char>, name: Seq<char>, c: Seq<char>, ch: char)
    requires
        lacks(a, ch) && lacks(name, ch) && lacks(c, ch),
        ch != '[' && ch != ']',
    ensures
        lacks(a + link(name) + c, ch),
{
    lemma_link_texts();
    lemma_lacks_concat("[["@, name, ch);
    lemma_lacks_concat("[["@ + name, "]]"@, ch);
    lemma_lacks_concat(a, link(name), ch);
    lemma_lacks_concat(a + link(name), c, ch);
}

proof fn lemma_no_tags(s: Seq<char>)
    requires
        lacks(s, '<'),
    ensures
        lacks_pair(s, '<', '!') && lacks_pair(s, '<', 'r') && lacks_pair(s, '<', 'R'),
{
    lemma_no_pair(s, '<', '!');
    lemma_no_pair(s, '<', 'r');
    lemma_no_pair(s, '<', 'R');
}

/// A link to a file or to a category is read as a space.
pub proof fn law_space_links_become_spaces(
    a: Seq<char>,
    space: Seq<char>,
    name: Seq<char>,
    c: Seq<char>,
)
    requires
        is_file_space(space) || is_category_space(space),
        lacks(a, '{') && lacks(a, '<') && lacks(a, '['),
        name.len() > 0,
        lacks(name, '{') && lacks(name, '<') && lacks(name, '[') && lacks(name, ']'),
        lacks(c, '{') && lacks(c, '<') && lacks(c, '['),
    ensures
        patterns_are_read() ==> mediawiki::cleaned(a + space_link(space, name) + c)
            == mediawiki::cleaned(a + " "@ + c),
{
    if patterns_are_read() {
        let s = a + space_link(space, name) + c;
        let t = a + " "@ + c;
        let inside = space + ":"@ + name;
        lemma_marks_of_pieces();
        lemma_link_texts();
        lemma_space_names(space);
        lemma_plain_link(a, inside, c, '{');
        lemma_plain_link(a, inside, c, '<');
        lemma_no_tags(s);
        lemma_no_tags(t);
        lemma_no_pair(t, '[', '[');
        lemma_early_steps(s, 6);
        lemma_early_steps(t, 8);
        assert(is_file_space(space) ==> stepped(s, 6) == t) by {
            reveal(space_links_are_read);
        }
        assert(is_category_space(space) ==> stepped(s, 6) == s && stepped(s, 7) == t) by {
            reveal(space_links_are_read);
        }
        if is_file_space(space) {
            lemma_one_step(s, t, 6);
        } else {
            lemma_one_step(s, t, 7);
        }
    }
}

/// A link to an address is read as its label.
pub proof fn law_address_links_become_labels(
    a: Seq<char>,
    scheme: Seq<char>,
    rest: Seq<char>,
    label: Seq<char>,
    c: Seq<char>,
)
    requires
        scheme == "http://"@ || scheme == "https://"@,
        is_address(rest) && lacks(rest, '{') && lacks(rest, '<'),
        is_label(label) && lacks(label, '{') && lacks(label, '<'),
        lacks(a, '{') && lacks(a, '<') && lacks(a, '['),
        lacks(c, '{') && lacks(c, '<') && lacks(c, '['),
    ensures
        patterns_are_read() ==> mediawiki::cleaned(a + address_link(scheme, rest, label) + c)
            == mediawiki::cleaned(a + label + c),
{
    if patterns_are_read() {
        let inside = scheme + rest + " "@ + label + "]"@;
        let s = a + address_link(scheme, rest, label) + c;
        let t = a + label + c;
        lemma_marks_of_pieces();
        lemma_link_texts();
        assert(lacks(inside, '{') && lacks(inside, '<') && lacks(inside, '['));
        assert(s =~= a + "["@ + inside + c);
        assert(lacks(a + "["@, '{') && lacks(a + "["@, '<'));
        assert(lacks(s, '{') && lacks(s, '<'));
        lemma_no_pair(a, '[', '[');
        lemma_no_pair(inside, '[', '[');
        lemma_no_pair(c, '[', '[');
        assert(lacks_pair("["@, '[', '['));
        lemma_pair_concat(a, "["@, '[', '[');
        lemma_pair_concat(a + "["@, inside, '[', '[');
        lemma_pair_concat(a + "["@ + inside, c, '[', '[');
        lemma_no_tags(s);
        lemma_no_tags(t);
        lemma_no_pair(t, '[', '[');
        lemma_early_steps(s, 8);
        lemma_early_steps(t, 9);
        assert(stepped(s, 8) == t) by {
            reveal(links_are_read);
        }
        lemma_one_step(s, t, 8);
    }
}

/// A link to a page is read as its label where it has one, and else as the name that it holds.
pub proof fn law_links_become_labels(
    a: Seq<char>,
    name: Seq<char>,
    label: Seq<char>,
    c: Seq<char>,
)
    requires
        is_label(name) && lacks(name, '{') && lacks(name, '<') && lacks(name, ':') && lacks(
            name,
            '|',
        ),
        is_label(label) && lacks(label, '{') && lacks(label, '<') && lacks(label, ':'),
        lacks(a, '{') && lacks(a, '<') && lacks(a, ':') && lacks(a, '['),
        lacks(c, '{') && lacks(c, '<') && lacks(c, ':') && lacks(c, '['),
    ensures
        patterns_are_read() ==> {
            &&& mediawiki::cleaned(a + labelled_link(name, label) + c) == mediawiki::cleaned(
                a + label + c,
            )
            &&& lacks(a, '|') && lacks(c, '|') ==> mediawiki::cleaned(a + link(name) + c)
                == mediawiki::cleaned(a + name + c)
        },
{
    if patterns_are_read() {
        let s = a + labelled_link(name, label) + c;
        let t = a + label + c;
        lemma_link_texts();
        let inside = name + "|"@ + label;
        lemma_plain_link(a, inside, c, '{');
        lemma_plain_link(a, inside, c, '<');
        lemma_plain_link(a, inside, c, ':');
        lemma_no_tags(s);
        lemma_no_tags(t);
        lemma_no_pair(s, ':', '/');
        lemma_no_pair(t, '[', '[');
        lemma_early_steps(s, 9);
        lemma_early_steps(t, 10);
        assert(stepped(s, 9) == t) by {
            reveal(links_are_read);
        }
        lemma_one_step(s, t, 9);
        if lacks(a, '|') && lacks(c, '|') {
            let u = a + link(name) + c;
            let v = a + name + c;
            lemma_plain_link(a, name, c, '{');
            lemma_plain_link(a, name, c, '<');
            lemma_plain_link(a, name, c, ':');
            lemma_plain_link(a, name, c, '|');
            lemma_no_tags(u);
            lemma_no_tags(v);
            lemma_no_pair(u, ':', '/');
            lemma_no_pair(v, '[', '[');
            lemma_early_steps(u, 10);
            lemma_early_steps(v, 11);
            assert(stepped(u, 10) == v) by {
                reveal(links_are_read);
            }
            lemma_one_step(u, v, 10);
        }
    }
}

proof fn lemma_mark(m: Seq<char>)
    requires
        is_mark(m),
        is_tag(m) ==> m[1] != '!' && m[1] != 'r' && m[1] != 'R',
    ensures
        lacks_pair(m, '<', '!') && lacks_pair(m, '<', 'r') && lacks_pair(m, '<', 'R'),
        m.len() >= 2,
        m.last() != '<',
{
    reveal_strlit("&nbsp;");
    if is_tag(m) {
        lemma_tag_pairs(m);
    } else {
        assert(lacks(m, '<'));
        lemma_no_tags(m);
    }
}

proof fn lemma_tag_pairs(m: Seq<char>)
    requires
        is_tag(m),
        m[1] != '!' && m[1] != 'r' && m[1] != 'R',
    ensures
        lacks_pair(m, '<', '!') && lacks_pair(m, '<', 'r') && lacks_pair(m, '<', 'R'),
{
    assert forall|i: int| 0 < i < m.len() implies #[trigger] m[i] != '<' by {}
    assert(forall|i: int| !#[trigger] is_pair(m, i, '<', '!'));
    assert(forall|i: int| !#[trigger] is_pair(m, i, '<', 'r'));
    assert(forall|i: int| !#[trigger] is_pair(m, i, '<', 'R'));
}

/// What is left of the markup is read as a space: quotes and equals signs that stand together,
/// tags, and hard spaces.
pub proof fn law_marks_become_spaces(a: Seq<char>, m: Seq<char>, c: Seq<char>)
    requires
        has_no_mark(a) && lacks(a, '{') && lacks(a, '['),
        is_mark(m) && lacks(m, '{') && lacks(m, '['),
        is_tag(m) ==> m[1] != '!' && m[1] != 'r' && m[1] != 'R',
        has_no_mark(c) && lacks(c, '{') && lacks(c, '['),
    ensures
        patterns_are_read() ==> mediawiki::cleaned(a + m + c) == mediawiki::cleaned(a + " "@ + c),
{
    if patterns_are_read() {
        let s = a + m + c;
        let t = a + " "@ + c;
        lemma_marks_of_pieces();
        lemma_mark(m);
        lemma_no_tags(a);
        lemma_no_tags(c);
        lemma_no_tags(t);
        lemma_pair_concat(a, m, '<', '!');
        lemma_pair_concat(a, m, '<', 'r');
        lemma_pair_concat(a, m, '<', 'R');
        assert((a + m).last() == m.last());
        lemma_pair_concat(a + m, c, '<', '!');
        lemma_pair_concat(a + m, c, '<', 'r');
        lemma_pair_concat(a + m, c, '<', 'R');
        assert(lacks(s, '{') && lacks(s, '['));
        lemma_no_pair(s, '[', '[');
        lemma_no_pair(t, '[', '[');
        lemma_early_steps(s, 11);
        lemma_early_steps(t, 12);
        assert(stepped(s, 11) == t) by {
            reveal(marks_are_read);
        }
        lemma_one_step(s, t, 11);
    }
}

/// A run of spaces and ends of lines and columns is read as one space.
pub proof fn law_gaps_become_spaces(a: Seq<char>, gap: Seq<char>, c: Seq<char>)
    requires
        has_no_mark(a) && has_no_gap(a) && lacks(a, '{') && lacks(a, '['),
        gap.len() > 0,
        forall|i: int| 0 <= i < gap.len() ==> is_gap(#[trigger] gap[i]),
        has_no_mark(c) && has_no_gap(c) && lacks(c, '{') && lacks(c, '['),
    ensures
        patterns_are_read() ==> mediawiki::cleaned(a + gap + c) == text::trimmed(a + " "@ + c),
{
    if patterns_are_read() {
        let s = a + gap + c;
        let t = a + " "@ + c;
        lemma_marks_of_pieces();
        assert(lacks(s, '{') && lacks(s, '[') && has_no_mark(s));
        lemma_no_tags(s);
        lemma_no_pair(s, '[', '[');
        lemma_early_steps(s, 12);
        assert(stepped(s, 12) == t) by {
            reveal(marks_are_read);
        }
        lemma_untouched(s, 12);
        lemma_after(s, 12);
        assert(mediawiki::cleaning_steps().take(13) =~= mediawiki::cleaning_steps());
    }
}

/// Whatever a wiki text holds, its cleaned text stands on one line, without two spaces one after
/// the other and without spaces at its ends.
pub proof fn law_cleaned_text_is_squeezed(full: Seq<char>)
    ensures
        patterns_are_read() ==> is_squeezed(mediawiki::cleaned(full)),
{
    if patterns_are_read() {
        let s = after(full, 13);
        lemma_after(full, 12);
        assert(is_squeezed(s)) by {
            reveal(marks_are_read);
        }
        assert(mediawiki::cleaning_steps().take(13) =~= mediawiki::cleaning_steps());
        let t = text::trimmed(s);
        text::lemma_trimmed(s);
        if t.len() > 0 {
            let n = text::leading_spaces(s) as int;
            assert forall|i: int| 0 <= i < t.len() implies #[trigger] t[i] == s[n + i] by {}
            assert forall|i: int| !#[trigger] is_pair(t, i, ' ', ' ') by {
                if is_pair(t, i, ' ', ' ') {
                    assert(is_pair(s, n + i, ' ', ' '));
                }
            }
        }
    }
}

} // verus!
