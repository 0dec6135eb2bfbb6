//! Characters, words and the splitting of a line into tokens.
use vstd::prelude::*;
use vstd::string::*;
use vstd::utf8::{encode_scalar, encode_utf8, is_char_boundary};

verus! {

/// The tokens of a line, borrowed from it.
pub type Tokens<'a> = Vec<&'a str>;

/// Whether Unicode gives the character the `White_Space` property.
pub open spec fn is_white_space(c: char) -> bool {
    ||| '\u{9}' <= c <= '\u{d}'
    ||| c == ' '
    ||| c == '\u{85}'
    ||| c == '\u{a0}'
    ||| c == '\u{1680}'
    ||| '\u{2000}' <= c <= '\u{200a}'
    ||| c == '\u{2028}'
    ||| c == '\u{2029}'
    ||| c == '\u{202f}'
    ||| c == '\u{205f}'
    ||| c == '\u{3000}'
}

/// Whether Unicode puts a character beyond ASCII in one of the categories for numbers.
pub uninterp spec fn wide_char_is_numeric(c: char) -> bool;

/// Whether Unicode puts the character in one of the categories for numbers: of ASCII, these hold
/// the ten digits.
pub open spec fn is_numeric(c: char) -> bool {
    if c <= '\u{7f}' {
        '0' <= c <= '9'
    } else {
        wide_char_is_numeric(c)
    }
}

/// `char::is_whitespace` says whether the character has the `White_Space` property of Unicode,
/// which the characters listed here have.
pub assume_specification[ char::is_whitespace ](c: char) -> (r: bool)
    ensures
        r == is_white_space(c),
;

/// `char::is_numeric` says whether the character is in one of the categories of Unicode for numbers.
/// Of the ASCII characters the ten digits are; beyond ASCII its answer depends on the character
/// alone, and is named here.
pub assume_specification[ char::is_numeric ](c: char) -> (r: bool)
    ensures
        c <= '\u{7f}' ==> r == ('0' <= c <= '9'),
        c > '\u{7f}' ==> r == wide_char_is_numeric(c),
;

/// `char::len_utf8` counts the bytes that the character takes in UTF-8.
pub assume_specification[ char::len_utf8 ](c: char) -> (r: usize)
    ensures
        r == encode_scalar(c as u32).len(),
;

/// Two string slices compare equal exactly when they hold the same characters.
pub assume_specification[ <str as PartialEq>::eq ](a: &str, b: &str) -> (r: bool)
    ensures
        r == (a@ == b@),
;

/// A character that separates tokens: white space, or one of the extra delimiters.
pub open spec fn is_delimiter(c: char, extra: Seq<char>) -> bool {
    is_white_space(c) || extra.contains(c)
}

/// The words of a line: its maximal runs of characters that are no delimiters, in order.
pub open spec fn words(line: Seq<char>, extra: Seq<char>) -> Seq<Seq<char>>
    decreases line.len(),
{
    if line.len() == 0 {
        seq![]
    } else {
        let before = line.drop_last();
        let c = line.last();
        let done = words(before, extra);
        if is_delimiter(c, extra) {
            done
        } else if before.len() == 0 || is_delimiter(before.last(), extra) {
            done.push(seq![c])
        } else {
            done.drop_last().push(done.last().push(c))
        }
    }
}

/// Whether a text is a word: it is not empty, and holds no delimiter.
pub open spec fn is_word(w: Seq<char>, extra: Seq<char>) -> bool {
    w.len() > 0 && forall|i: int| 0 <= i < w.len() ==> !is_delimiter(#[trigger] w[i], extra)
}

/// Texts in a row, with a blank between each two.
pub open spec fn joined(parts: Seq<Seq<char>>) -> Seq<char>
    decreases parts.len(),
{
    if parts.len() == 0 {
        seq![]
    } else if parts.len() == 1 {
        parts[0]
    } else {
        joined(parts.drop_last()) + seq![' '] + parts.last()
    }
}

/// The characters of each token.
pub open spec fn texts(tokens: Seq<&str>) -> Seq<Seq<char>> {
    tokens.map_values(|t: &str| t@)
}

/// Whether a text holds a numeric character.
pub open spec fn has_numeric(text: Seq<char>) -> bool {
    exists|i: int| 0 <= i < text.len() && is_numeric(#[trigger] text[i])
}

/// The encoding of two texts in a row is the two encodings in a row.
pub(crate) proof fn lemma_encode_concat(a: Seq<char>, b: Seq<char>)
    ensures
        encode_utf8(a + b) == encode_utf8(a) + encode_utf8(b),
    decreases a.len(),
{
    if a.len() == 0 {
        assert(a + b =~= b);
        assert(encode_utf8(a) + encode_utf8(b) =~= encode_utf8(b));
    } else {
        lemma_encode_concat(a.drop_first(), b);
        assert((a + b).drop_first() =~= a.drop_first() + b);
        assert((a + b)[0] == a[0]);
        assert(encode_utf8(a) == encode_scalar(a[0] as u32) + encode_utf8(a.drop_first()));
        assert(encode_utf8(a + b) =~= encode_utf8(a) + encode_utf8(b));
    }
}

/// A text is split between two characters where the encoding of the first ones ends.
proof fn lemma_boundary(a: Seq<char>, b: Seq<char>)
    ensures
        is_char_boundary(encode_utf8(a + b), encode_utf8(a).len() as int),
    decreases a.len(),
{
    vstd::utf8::encode_utf8_valid_utf8(a + b);
    if a.len() > 0 {
        let bytes = encode_utf8(a + b);
        vstd::utf8::encode_utf8_first_scalar(a + b);
        lemma_boundary(a.drop_first(), b);
        assert((a + b).drop_first() =~= a.drop_first() + b);
        assert(vstd::utf8::pop_first_scalar(bytes) =~= encode_utf8(a.drop_first() + b));
        lemma_encode_concat(a, b);
        assert(encode_utf8(a) == encode_scalar(a[0] as u32) + encode_utf8(a.drop_first()));
    }
}

/// Texts with one encoding are one text.
pub(crate) proof fn lemma_encode_injective(a: Seq<char>, b: Seq<char>)
    requires
        encode_utf8(a) == encode_utf8(b),
    ensures
        a == b,
{
    vstd::utf8::encode_utf8_decode_utf8(a);
    vstd::utf8::encode_utf8_decode_utf8(b);
}

/// The characters `i..j` of a text, given the bytes at which they start and end.
fn slice<'a>(s: &'a str, from: usize, to: usize, Ghost(i): Ghost<int>, Ghost(j): Ghost<int>) -> (r:
    &'a str)
    requires
        0 <= i <= j <= s@.len(),
        from == encode_utf8(s@.take(i)).len(),
        to == encode_utf8(s@.take(j)).len(),
    ensures
        r@ == s@.subrange(i, j),
{
    let ghost head = s@.take(j);
    proof {
        assert(s@ =~= head + s@.skip(j));
        lemma_boundary(head, s@.skip(j));
        lemma_encode_concat(head, s@.skip(j));
    }
    let upto = s.split_at(to).0;
    proof {
        assert(upto.spec_bytes() =~= encode_utf8(head));
        lemma_encode_injective(upto@, head);
        assert(head =~= s@.take(i) + s@.subrange(i, j));
        lemma_boundary(s@.take(i), s@.subrange(i, j));
        lemma_encode_concat(s@.take(i), s@.subrange(i, j));
    }
    let r = upto.split_at(from).1;
    proof {
        assert(r.spec_bytes() =~= encode_utf8(s@.subrange(i, j)));
        lemma_encode_injective(r@, s@.subrange(i, j));
    }
    r
}

/// Whether a list of characters holds the character.
fn contains_char(list: &[char], c: char) -> (r: bool)
    ensures
        r == list@.contains(c),
{
    let mut i: usize = 0;
    while i < list.len()
        invariant
            i <= list@.len(),
            forall|k: int| 0 <= k < i ==> list@[k] != c,
        decreases list@.len() - i,
    {
        if list[i] == c {
            assert(list@[i as int] == c);
            return true;
        }
        i += 1;
    }
    false
}

/// Whether a text holds a numeric character.
pub fn any_numeric(s: &str) -> (r: bool)
    ensures
        r == has_numeric(s@),
{
    for c in it: s.chars()
        invariant
            it.seq() == s@,
            forall|k: int| 0 <= k < it.index() ==> !is_numeric(#[trigger] s@[k]),
    {
        if c.is_numeric() {
            assert(s@[it.index()] == c);
            return true;
        }
    }
    false
}

/// One more character of a line adds its own bytes to the encoding.
proof fn lemma_encode_next(line: Seq<char>, i: int)
    requires
        0 <= i < line.len(),
    ensures
        line.take(i + 1) == line.take(i).push(line[i]),
        encode_utf8(line.take(i + 1)).len() == encode_utf8(line.take(i)).len() + encode_scalar(
            line[i] as u32,
        ).len(),
        encode_utf8(line.take(i + 1)).len() <= encode_utf8(line).len(),
        encode_scalar(line[i] as u32).len() > 0,
{
    let c = seq![line[i]];
    assert(line.take(i + 1) =~= line.take(i) + c);
    lemma_encode_concat(line.take(i), c);
    assert(encode_utf8(c) =~= encode_scalar(line[i] as u32)) by {
        reveal_with_fuel(encode_utf8, 2);
        assert(c.drop_first() =~= Seq::<char>::empty());
    }
    assert(line =~= line.take(i + 1) + line.skip(i + 1));
    lemma_encode_concat(line.take(i + 1), line.skip(i + 1));
}

/// Splits a line into its words.
pub fn tokenize<'a>(s: &'a str, extra_delimiters: &[char]) -> (tokens: Tokens<'a>)
    ensures
        texts(tokens@) == words(s@, extra_delimiters@),
{
    let mut tokens: Tokens<'a> = Vec::new();
    let size: usize = s.as_bytes().len();
    let mut start: usize = 0;
    let mut pos: usize = 0;
    let ghost mut i: int = 0;
    let ghost mut first: int = 0;
    for c in it: s.chars()
        invariant
            it.seq() == s@,
            i == it.index(),
            size == encode_utf8(s@).len(),
            0 <= first <= i <= s@.len(),
            start == encode_utf8(s@.take(first)).len(),
            pos == encode_utf8(s@.take(i)).len(),
            first < i <==> start < pos,
            forall|k: int| first <= k < i ==> !is_delimiter(#[trigger] s@[k], extra_delimiters@),
            first > 0 ==> is_delimiter(s@[first - 1], extra_delimiters@),
            words(s@.take(i), extra_delimiters@) == if first < i {
                texts(tokens@).push(s@.subrange(first, i))
            } else {
                texts(tokens@)
            },
    {
        let ghost before = tokens@;
        proof {
            lemma_encode_next(s@, i);
            assert(s@.take(i + 1).drop_last() =~= s@.take(i));
        }
        let width: usize = c.len_utf8();
        if c.is_whitespace() || contains_char(extra_delimiters, c) {
            if start < pos {
                let word = slice(s, start, pos, Ghost(first), Ghost(i));
                tokens.push(word);
                assert(texts(tokens@) =~= texts(before).push(word@));
            }
            start = pos + width;
            proof {
                first = i + 1;
            }
        } else {
            proof {
                if first < i {
                    assert(texts(before).push(s@.subrange(first, i)).drop_last() =~= texts(
                        before,
                    ));
                    assert(s@.subrange(first, i).push(c) =~= s@.subrange(first, i + 1));
                } else {
                    assert(seq![c] =~= s@.subrange(first, i + 1));
                }
            }
        }
        pos += width;
        proof {
            i = i + 1;
        }
    }
    assert(s@.take(s@.len() as int) =~= s@);
    if start < pos {
        let ghost before = tokens@;
        let word = slice(s, start, pos, Ghost(first), Ghost(s@.len() as int));
        tokens.push(word);
        assert(texts(tokens@) =~= texts(before).push(word@));
    }
    tokens
}

/// A line that does not end in a delimiter has a last word, made of its last characters.
proof fn lemma_last_word(line: Seq<char>, extra: Seq<char>)
    requires
        line.len() > 0,
        !is_delimiter(line.last(), extra),
    ensures
        words(line, extra).len() > 0,
{
}

/// A delimiter parts the words before it from the words after it.
pub proof fn law_delimiter_parts_words(a: Seq<char>, d: char, b: Seq<char>, extra: Seq<char>)
    requires
        is_delimiter(d, extra),
    ensures
        words(a.push(d) + b, extra) == words(a, extra) + words(b, extra),
    decreases b.len(),
{
    let line = a.push(d) + b;
    if b.len() == 0 {
        assert(line.drop_last() =~= a);
        assert(words(a, extra) + words(b, extra) =~= words(a, extra));
    } else {
        let rest = b.drop_last();
        let c = b.last();
        law_delimiter_parts_words(a, d, rest, extra);
        assert(line.drop_last() =~= a.push(d) + rest);
        if !is_delimiter(c, extra) {
            if rest.len() == 0 || is_delimiter(rest.last(), extra) {
                assert(words(line, extra) =~= words(a, extra) + words(b, extra));
            } else {
                lemma_last_word(rest, extra);
                assert((words(a, extra) + words(rest, extra)).drop_last() =~= words(a, extra)
                    + words(rest, extra).drop_last());
                assert(words(line, extra) =~= words(a, extra) + words(b, extra));
            }
        }
    }
}

/// A run of characters without a delimiter is one word.
pub proof fn law_run_is_one_word(run: Seq<char>, extra: Seq<char>)
    requires
        is_word(run, extra),
    ensures
        words(run, extra) == seq![run],
    decreases run.len(),
{
    let before = run.drop_last();
    assert(!is_delimiter(run.last(), extra));
    if before.len() == 0 {
        assert(run =~= seq![run.last()]);
        assert(words(before, extra) =~= seq![]);
        assert(words(run, extra) =~= seq![run]);
    } else {
        assert(!is_delimiter(before.last(), extra));
        law_run_is_one_word(before, extra);
        assert(before.push(run.last()) =~= run);
        assert(seq![before].drop_last() =~= seq![]);
        assert(words(run, extra) =~= seq![run]);
    }
}

/// No word of a line is empty, and none holds a delimiter.
pub proof fn law_words_are_clean(line: Seq<char>, extra: Seq<char>)
    ensures
        forall|w: int|
            0 <= w < words(line, extra).len() ==> is_word(#[trigger] words(line, extra)[w], extra),
    decreases line.len(),
{
    if line.len() > 0 {
        let before = line.drop_last();
        law_words_are_clean(before, extra);
        if before.len() > 0 && !is_delimiter(before.last(), extra) {
            lemma_last_word(before, extra);
        }
    }
}

/// Words that are joined by blanks split back into the same words.
pub proof fn law_joined_words_split_back(parts: Seq<Seq<char>>, extra: Seq<char>)
    requires
        forall|w: int| 0 <= w < parts.len() ==> is_word(#[trigger] parts[w], extra),
    ensures
        words(joined(parts), extra) == parts,
    decreases parts.len(),
{
    if parts.len() == 0 {
        assert(parts =~= seq![]);
    } else {
        let last = parts.last();
        law_run_is_one_word(last, extra);
        if parts.len() == 1 {
            assert(parts =~= seq![last]);
        } else {
            let front = parts.drop_last();
            law_joined_words_split_back(front, extra);
            assert(joined(parts) =~= joined(front).push(' ') + last);
            law_delimiter_parts_words(joined(front), ' ', last, extra);
            assert(front + seq![last] =~= parts);
        }
    }
}

/// The words of a line, joined by blanks, are a line of the same words.
pub proof fn law_line_of_words_splits_back(line: Seq<char>, extra: Seq<char>)
    ensures
        words(joined(words(line, extra)), extra) == words(line, extra),
{
    law_words_are_clean(line, extra);
    law_joined_words_split_back(words(line, extra), extra);
}

/// The ten digits are numeric and no other character of ASCII is, and beyond ASCII those are that
/// Unicode counts among the numbers.
pub proof fn law_numeric_characters(c: char)
    ensures
        '0' <= c <= '9' ==> is_numeric(c),
        c < '0' ==> !is_numeric(c),
        '9' < c <= '\u{7f}' ==> !is_numeric(c),
        c > '\u{7f}' ==> is_numeric(c) == wide_char_is_numeric(c),
{
}

/// A text holds a numeric character wherever in it one stands.
pub proof fn law_number_anywhere_counts(a: Seq<char>, c: char, b: Seq<char>)
    requires
        '0' <= c <= '9' || (c > '\u{7f}' && wide_char_is_numeric(c)),
    ensures
        has_numeric(a.push(c) + b),
{
    assert((a.push(c) + b)[a.len() as int] == c);
}

/// Two texts in a row hold a numeric character exactly where one of them does; a text of one
/// character does where the character is numeric, and the empty text does not.
pub proof fn law_numbers_of_parts(a: Seq<char>, c: char, b: Seq<char>)
    ensures
        has_numeric(a + b) <==> has_numeric(a) || has_numeric(b),
        has_numeric(seq![c]) <==> ('0' <= c <= '9' || (c > '\u{7f}' && wide_char_is_numeric(c))),
        !has_numeric(seq![]),
{
    let both = a + b;
    if has_numeric(a) {
        let i = choose|i: int| 0 <= i < a.len() && is_numeric(#[trigger] a[i]);
        assert(both[i] == a[i]);
    }
    if has_numeric(b) {
        let i = choose|i: int| 0 <= i < b.len() && is_numeric(#[trigger] b[i]);
        assert(both[a.len() + i] == b[i]);
    }
    if has_numeric(both) {
        let i = choose|i: int| 0 <= i < both.len() && is_numeric(#[trigger] both[i]);
        if i < a.len() {
            assert(a[i] == both[i]);
        } else {
            assert(b[i - a.len()] == both[i]);
        }
    }
    assert(seq![c][0] == c);
}

/// White space parts words, and so does every extra delimiter, wherever it stands in the list.
pub proof fn law_every_delimiter_parts_words(a: Seq<char>, d: char, b: Seq<char>, extra: Seq<char>)
    requires
        is_white_space(d) || exists|i: int| 0 <= i < extra.len() && #[trigger] extra[i] == d,
    ensures
        words(a.push(d) + b, extra) == words(a, extra) + words(b, extra),
        words(seq![], extra) == Seq::<Seq<char>>::empty(),
{
    law_delimiter_parts_words(a, d, b, extra);
}

/// Nothing but white space and the extra delimiters parts words: a run of other characters, however
/// long, is one word.
pub proof fn law_nothing_else_parts_words(run: Seq<char>, extra: Seq<char>)
    requires
        run.len() > 0,
        forall|i: int|
            0 <= i < run.len() ==> !is_white_space(#[trigger] run[i]) && forall|j: int|
                0 <= j < extra.len() ==> #[trigger] extra[j] != run[i],
    ensures
        words(run, extra) == seq![run],
{
    assert forall|i: int| 0 <= i < run.len() implies !is_delimiter(#[trigger] run[i], extra) by {
        if extra.contains(run[i]) {
            let j = extra.index_of(run[i]);
            assert(extra[j] == run[i]);
        }
    }
    law_run_is_one_word(run, extra);
}

/// Texts are joined by one blank, whatever they are: two rows of texts that are joined are joined
/// again by one blank, and a single text stays as it is.
pub proof fn law_one_blank_joins(a: Seq<Seq<char>>, b: Seq<Seq<char>>, part: Seq<char>)
    ensures
        a.len() > 0 && b.len() > 0 ==> joined(a + b) == joined(a).push(' ') + joined(b),
        joined(seq![part]) == part,
        joined(seq![]) == Seq::<char>::empty(),
    decreases b.len(),
{
    if a.len() > 0 && b.len() > 0 {
        let all = a + b;
        assert(all.drop_last() =~= a + b.drop_last());
        if b.len() == 1 {
            assert(all.drop_last() =~= a);
            assert(joined(all) =~= joined(a).push(' ') + joined(b));
        } else {
            law_one_blank_joins(a, b.drop_last(), part);
            assert(joined(all) =~= joined(a).push(' ') + joined(b));
        }
    }
}

}
