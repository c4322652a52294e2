//! Reading settings out of text.
use crate::text::{begins_with, decimal, digit, padded};
use vstd::arithmetic::power::pow;
use vstd::prelude::*;
use vstd::string::*;

verus! {

/// The characters that Unicode counts as white space.
pub open spec fn white(c: char) -> bool {
    let n = c as u32;
    ||| 0x9 <= n <= 0xd
    ||| n == 0x20
    ||| n == 0x85
    ||| n == 0xa0
    ||| n == 0x1680
    ||| 0x2000 <= n <= 0x200a
    ||| n == 0x2028
    ||| n == 0x2029
    ||| n == 0x202f
    ||| n == 0x205f
    ||| n == 0x3000
}

fn is_white(c: char) -> (is: bool)
    ensures
        is == white(c),
{
    let n: u32 = c as u32;
    (0x9 <= n && n <= 0xd) || n == 0x20 || n == 0x85 || n == 0xa0 || n == 0x1680 || (0x2000 <= n
        && n <= 0x200a) || n == 0x2028 || n == 0x2029 || n == 0x202f || n == 0x205f || n == 0x3000
}

/// Text without white space at its ends.
pub open spec fn trimmed(text: Seq<char>) -> Seq<char>
    decreases text.len(),
{
    if text.len() == 0 {
        text
    } else if white(text[0]) {
        trimmed(text.drop_first())
    } else if white(text.last()) {
        trimmed(text.drop_last())
    } else {
        text
    }
}

/// Text without white space at its ends.
pub fn trim(text: &str) -> (inner: &str)
    ensures
        inner@ == trimmed(text@),
{
    let mut from: usize = 0;
    let mut to: usize = text.unicode_len();
    assert(text@.subrange(0, to as int) =~= text@);
    while from < to && is_white(text.get_char(from))
        invariant
            from <= to,
            to == text@.len(),
            trimmed(text@) == trimmed(text@.subrange(from as int, to as int)),
        decreases to - from,
    {
        assert(text@.subrange(from as int, to as int).drop_first() =~= text@.subrange(
            from + 1,
            to as int,
        ));
        from = from + 1;
    }
    while from < to && is_white(text.get_char(to - 1))
        invariant
            from <= to <= text@.len(),
            from < to ==> !white(text@[from as int]),
            trimmed(text@) == trimmed(text@.subrange(from as int, to as int)),
        decreases to - from,
    {
        assert(text@.subrange(from as int, to as int).drop_last() =~= text@.subrange(
            from as int,
            to - 1,
        ));
        assert(text@.subrange(from as int, to as int).last() == text@[to - 1]);
        to = to - 1;
    }
    proof {
        let rest = text@.subrange(from as int, to as int);
        if rest.len() > 0 {
            assert(rest[0] == text@[from as int]);
            assert(rest.last() == text@[to - 1]);
        }
    }
    text.substring_char(from, to)
}

/// The pieces of text between the occurrences of a character.
pub open spec fn pieces(text: Seq<char>, mark: char) -> Seq<Seq<char>>
    decreases text.len(),
{
    if text.len() == 0 {
        seq![seq![]]
    } else {
        let front = pieces(text.drop_last(), mark);
        if text.last() == mark {
            front.push(seq![])
        } else {
            front.drop_last().push(front.last().push(text.last()))
        }
    }
}

proof fn lemma_pieces(text: Seq<char>, mark: char, start: int, end: int)
    requires
        0 <= start <= end <= text.len(),
        start == 0 || text[start - 1] == mark,
        forall|i: int| start <= i < end ==> text[i] != mark,
    ensures
        pieces(text.subrange(0, end), mark) == if start == 0 {
            seq![text.subrange(0, end)]
        } else {
            pieces(text.subrange(0, start - 1), mark).push(text.subrange(start, end))
        },
    decreases end - start,
{
    let head = text.subrange(0, end);
    if start == end {
        if start == 0 {
            assert(head =~= Seq::empty());
            assert(pieces(head, mark) =~= seq![text.subrange(0, end)]);
        } else {
            assert(head.drop_last() =~= text.subrange(0, start - 1));
            assert(text.subrange(start, end) =~= Seq::empty());
        }
    } else {
        lemma_pieces(text, mark, start, end - 1);
        assert(head.drop_last() =~= text.subrange(0, end - 1));
        assert(text.subrange(start, end - 1).push(text[end - 1]) =~= text.subrange(start, end));
        let front = pieces(text.subrange(0, end - 1), mark);
        if start == 0 {
            assert(front.drop_last() =~= Seq::empty());
            assert(pieces(head, mark) =~= seq![text.subrange(0, end)]);
        } else {
            assert(front.drop_last() =~= pieces(text.subrange(0, start - 1), mark));
        }
    }
}

/// The pieces of text between the occurrences of a character.
pub fn split(text: &str, mark: char) -> (list: Vec<String>)
    ensures
        crate::collection::views(list@) == pieces(text@, mark),
        list@.len() > 0,
{
    let length: usize = text.unicode_len();
    let mut list: Vec<String> = Vec::new();
    let mut start: usize = 0;
    let mut i: usize = 0;
    while i < length
        invariant
            start <= i <= length,
            length == text@.len(),
            start == 0 || text@[start - 1] == mark,
            forall|j: int| start <= j < i ==> text@[j] != mark,
            start == 0 ==> list@.len() == 0,
            start > 0 ==> crate::collection::views(list@) == pieces(
                text@.subrange(0, start - 1),
                mark,
            ),
        decreases length - i,
    {
        if text.get_char(i) == mark {
            let piece = text.substring_char(start, i).to_owned();
            proof {
                lemma_pieces(text@, mark, start as int, i as int);
            }
            let ghost before = crate::collection::views(list@);
            list.push(piece);
            proof {
                assert(crate::collection::views(list@) =~= before.push(piece@));
                assert(start == 0 ==> before =~= Seq::empty());
                assert(crate::collection::views(list@) =~= pieces(
                    text@.subrange(0, i as int),
                    mark,
                ));
            }
            start = i + 1;
        }
        i = i + 1;
    }
    let piece = text.substring_char(start, length).to_owned();
    proof {
        lemma_pieces(text@, mark, start as int, length as int);
        assert(text@.subrange(0, length as int) =~= text@);
    }
    let ghost before = crate::collection::views(list@);
    list.push(piece);
    proof {
        assert(crate::collection::views(list@) =~= before.push(piece@));
        assert(start == 0 ==> before =~= Seq::empty());
        assert(crate::collection::views(list@) =~= pieces(text@, mark));
    }
    list
}

/// The number that decimal digits stand for.
pub open spec fn digits_value(digits: Seq<char>) -> nat
    decreases digits.len(),
{
    if digits.len() == 0 {
        0
    } else {
        10 * digits_value(digits.drop_last()) + (digits.last() as nat - '0' as nat) as nat
    }
}

/// Decimal digits and nothing else.
pub open spec fn all_digits(text: Seq<char>) -> bool {
    forall|i: int| 0 <= i < text.len() ==> '0' <= #[trigger] text[i] <= '9'
}

/// The digits of a numeral, which may begin with a plus sign.
pub open spec fn unsigned_part(text: Seq<char>) -> Seq<char> {
    if text.len() > 0 && text[0] == '+' {
        text.drop_first()
    } else {
        text
    }
}

/// The number that a numeral stands for: digits, at least one, behind an optional
/// plus sign.
pub open spec fn numeral(text: Seq<char>) -> Option<nat> {
    let digits = unsigned_part(text);
    if digits.len() > 0 && all_digits(digits) {
        Some(digits_value(digits))
    } else {
        None
    }
}

/// The number that a numeral stands for, if it is one and the number is not too
/// large.
pub fn parse_number(text: &str) -> (number: Option<u64>)
    ensures
        match number {
            Some(n) => numeral(text@) == Some(n as nat),
            None => numeral(text@) is None || numeral(text@)->0 > u64::MAX,
        },
{
    let length: usize = text.unicode_len();
    let start: usize = if length > 0 && text.get_char(0) == '+' {
        1
    } else {
        0
    };
    if start == length {
        assert(unsigned_part(text@).len() == 0);
        return None;
    }
    let ghost digits = unsigned_part(text@);
    assert(digits =~= text@.subrange(start as int, length as int));
    let mut value: u64 = 0;
    let mut i: usize = start;
    assert(digits.subrange(0, 0) =~= Seq::empty());
    let mut large: bool = false;
    while i < length
        invariant
            start <= i <= length,
            length == text@.len(),
            digits == text@.subrange(start as int, length as int),
            digits == unsigned_part(text@),
            all_digits(digits.subrange(0, i - start)),
            !large ==> value == digits_value(digits.subrange(0, i - start)),
            large ==> digits_value(digits.subrange(0, i - start)) > u64::MAX,
        decreases length - i,
    {
        let c: char = text.get_char(i);
        let ghost head = digits.subrange(0, i - start);
        let ghost next = digits.subrange(0, i + 1 - start);
        proof {
            assert(next.drop_last() =~= head);
            assert(next.last() == c);
            assert(digits[i - start] == c);
        }
        if c < '0' || c > '9' {
            assert(!all_digits(digits));
            return None;
        }
        proof {
            assert forall|j: int| 0 <= j < next.len() implies '0' <= #[trigger] next[j] <= '9' by {
                if j < head.len() {
                    assert(head[j] == next[j]);
                }
            }
        }
        let digit: u64 = (c as u32 - '0' as u32) as u64;
        if !large {
            if value > (u64::MAX - digit) / 10 {
                large = true;
            } else {
                value = value * 10 + digit;
            }
        }
        i = i + 1;
    }
    assert(digits.subrange(0, length - start) =~= digits);
    if large {
        None
    } else {
        Some(value)
    }
}

/// A size that a numeral stands for.
pub fn parse_size(text: &str) -> (size: Option<usize>)
    ensures
        match size {
            Some(n) => numeral(text@) == Some(n as nat),
            None => numeral(text@) is None || numeral(text@)->0 > usize::MAX,
        },
{
    match parse_number(text) {
        Some(n) => if n <= usize::MAX as u64 {
            Some(n as usize)
        } else {
            None
        },
        None => None,
    }
}

/// An ASCII letter as a small one; any other character as it is.
pub open spec fn lowered(c: char) -> char {
    if 'A' <= c <= 'Z' {
        (c as u32 + 32) as char
    } else {
        c
    }
}

fn lower(c: char) -> (small: char)
    ensures
        small == lowered(c),
{
    if 'A' <= c && c <= 'Z' {
        ((c as u8) + 32) as char
    } else {
        c
    }
}

/// Whether text is a word, whatever case its ASCII letters are in. The word is
/// written in small letters.
pub open spec fn is_word(text: Seq<char>, word: Seq<char>) -> bool {
    text.map_values(|c: char| lowered(c)) == word
}

/// Whether text is a word, whatever case its ASCII letters are in.
pub fn same_word(text: &str, word: &str) -> (same: bool)
    ensures
        same == is_word(text@, word@),
{
    let length: usize = text.unicode_len();
    let ghost small = text@.map_values(|c: char| lowered(c));
    if word.unicode_len() != length {
        return false;
    }
    let mut i: usize = 0;
    while i < length
        invariant
            i <= length,
            length == text@.len(),
            length == word@.len(),
            small == text@.map_values(|c: char| lowered(c)),
            forall|j: int| 0 <= j < i ==> small[j] == word@[j],
        decreases length - i,
    {
        if lower(text.get_char(i)) != word.get_char(i) {
            assert(small[i as int] != word@[i as int]);
            return false;
        }
        i = i + 1;
    }
    assert(small =~= word@);
    true
}

/// Text without the marks at its end.
pub open spec fn without_end(text: Seq<char>, mark: char) -> Seq<char>
    decreases text.len(),
{
    if text.len() > 0 && text.last() == mark {
        without_end(text.drop_last(), mark)
    } else {
        text
    }
}

/// Text without the marks at its end.
pub fn trim_end(text: &str, mark: char) -> (inner: &str)
    ensures
        inner@ == without_end(text@, mark),
{
    let mut to: usize = text.unicode_len();
    assert(text@.subrange(0, to as int) =~= text@);
    while to > 0 && text.get_char(to - 1) == mark
        invariant
            to <= text@.len(),
            without_end(text@, mark) == without_end(text@.subrange(0, to as int), mark),
        decreases to,
    {
        assert(text@.subrange(0, to as int).drop_last() =~= text@.subrange(0, to - 1));
        to = to - 1;
    }
    text.substring_char(0, to)
}

/// What follows a prefix of text, if the text has it.
pub open spec fn behind(text: Seq<char>, prefix: Seq<char>) -> Option<Seq<char>> {
    if prefix.is_prefix_of(text) {
        Some(text.subrange(prefix.len() as int, text.len() as int))
    } else {
        None
    }
}

/// What follows a prefix of text, if the text has it.
pub fn strip_prefix<'a>(text: &'a str, prefix: &str) -> (rest: Option<&'a str>)
    ensures
        match rest {
            Some(r) => behind(text@, prefix@) == Some(r@),
            None => behind(text@, prefix@) is None,
        },
{
    if begins_with(text, prefix) {
        Some(text.substring_char(prefix.unicode_len(), text.unicode_len()))
    } else {
        None
    }
}

proof fn lemma_digit_reads_back(d: int)
    requires
        0 <= d < 10,
    ensures
        digit(d).len() == 1,
        '0' <= digit(d)[0] <= '9',
        digit(d)[0] as nat - '0' as nat == d,
{
}

/// The decimal numeral of a number, written out, is read as that number, and so is the
/// numeral with a plus sign before it.
pub proof fn law_numerals_are_read_back(n: nat)
    ensures
        numeral(decimal(n)) == Some(n),
        numeral(seq!['+'] + decimal(n)) == Some(n),
        decimal(n).len() > 0,
        all_digits(decimal(n)),
        digits_value(decimal(n)) == n,
    decreases n,
{
    let text = decimal(n);
    lemma_digit_reads_back((n % 10) as int);
    if n < 10 {
        assert(text.drop_last() =~= Seq::empty());
        assert(digits_value(text.drop_last()) == 0);
    } else {
        law_numerals_are_read_back(n / 10);
        assert(text.drop_last() =~= decimal(n / 10));
        assert forall|i: int| 0 <= i < text.len() implies '0' <= #[trigger] text[i] <= '9' by {
            if i < text.len() - 1 {
                assert(text[i] == decimal(n / 10)[i]);
            }
        }
    }
    assert(text[0] != '+');
    assert((seq!['+'] + text).drop_first() =~= text);
}

/// A number that is padded to a width is read as that number, where the width has room
/// for it; so no two such numbers are written alike.
pub proof fn law_padded_numerals_are_read_back(n: nat, width: nat)
    ensures
        padded(n, width).len() == width,
        all_digits(padded(n, width)),
        n < pow(10, width) ==> digits_value(padded(n, width)) == n,
    decreases width,
{
    reveal(pow);
    if width > 0 {
        let text = padded(n, width);
        lemma_digit_reads_back((n % 10) as int);
        law_padded_numerals_are_read_back(n / 10, (width - 1) as nat);
        assert(text.drop_last() =~= padded(n / 10, (width - 1) as nat));
        assert forall|i: int| 0 <= i < text.len() implies '0' <= #[trigger] text[i] <= '9' by {
            if i < text.len() - 1 {
                assert(text[i] == padded(n / 10, (width - 1) as nat)[i]);
            }
        }
    }
}

/// Trimming takes white space from the two ends and nothing else: what is left neither
/// begins nor ends with any.
pub proof fn law_trimming_takes_the_white_ends(text: Seq<char>) -> (ends: (int, int))
    ensures
        0 <= ends.0 <= ends.1 <= text.len(),
        trimmed(text) == text.subrange(ends.0, ends.1),
        forall|i: int| 0 <= i < ends.0 ==> white(#[trigger] text[i]),
        forall|i: int| ends.1 <= i < text.len() ==> white(#[trigger] text[i]),
        ends.0 < ends.1 ==> !white(text[ends.0]) && !white(text[ends.1 - 1]),
    decreases text.len(),
{
    if text.len() > 0 && white(text[0]) {
        let rest = text.drop_first();
        let inner = law_trimming_takes_the_white_ends(rest);
        assert(rest.subrange(inner.0, inner.1) =~= text.subrange(inner.0 + 1, inner.1 + 1));
        assert forall|i: int| 0 <= i < inner.0 + 1 implies white(#[trigger] text[i]) by {
            if i > 0 {
                assert(text[i] == rest[i - 1]);
            }
        }
        assert forall|i: int| inner.1 + 1 <= i < text.len() implies white(#[trigger] text[i]) by {
            assert(text[i] == rest[i - 1]);
        }
        (inner.0 + 1, inner.1 + 1)
    } else if text.len() > 0 && white(text.last()) {
        let rest = text.drop_last();
        let inner = law_trimming_takes_the_white_ends(rest);
        assert(rest.subrange(inner.0, inner.1) =~= text.subrange(inner.0, inner.1));
        assert forall|i: int| 0 <= i < inner.0 implies white(#[trigger] text[i]) by {
            assert(text[i] == rest[i]);
        }
        assert forall|i: int| inner.1 <= i < text.len() implies white(#[trigger] text[i]) by {
            if i < rest.len() {
                assert(text[i] == rest[i]);
            }
        }
        inner
    } else {
        assert(text.subrange(0, text.len() as int) =~= text);
        (0, text.len() as int)
    }
}

/// Pieces with a mark between every two.
pub open spec fn rejoined(pieces: Seq<Seq<char>>, mark: char) -> Seq<char>
    decreases pieces.len(),
{
    if pieces.len() <= 1 {
        if pieces.len() == 1 {
            pieces[0]
        } else {
            seq![]
        }
    } else {
        rejoined(pieces.drop_last(), mark) + seq![mark] + pieces.last()
    }
}

/// Splitting text loses nothing: the pieces with the marks between them are the text
/// again, and no piece holds a mark.
pub proof fn law_pieces_make_the_text(text: Seq<char>, mark: char)
    ensures
        pieces(text, mark).len() > 0,
        rejoined(pieces(text, mark), mark) == text,
        forall|i: int|
            0 <= i < pieces(text, mark).len() ==> !(#[trigger] pieces(text, mark)[i]).contains(
                mark,
            ),
    decreases text.len(),
{
    let all = pieces(text, mark);
    if text.len() == 0 {
        assert(all[0] =~= text);
    } else {
        let front = pieces(text.drop_last(), mark);
        law_pieces_make_the_text(text.drop_last(), mark);
        assert(text =~= text.drop_last().push(text.last()));
        if text.last() == mark {
            assert(all.drop_last() =~= front);
            assert(rejoined(all, mark) =~= text);
            assert forall|i: int| 0 <= i < all.len() implies !(#[trigger] all[i]).contains(
                mark,
            ) by {
                if i < front.len() {
                    assert(all[i] == front[i]);
                }
            }
        } else {
            assert(all.drop_last() =~= front.drop_last());
            assert(all.last() == front.last().push(text.last()));
            assert(rejoined(all, mark) =~= rejoined(front, mark).push(text.last()));
            assert forall|i: int| 0 <= i < all.len() implies !(#[trigger] all[i]).contains(
                mark,
            ) by {
                if i < front.len() - 1 {
                    assert(all[i] == front[i]);
                } else {
                    let end = front[front.len() - 1];
                    assert(all[i] == end.push(text.last()));
                    if all[i].contains(mark) {
                        let x = choose|x: int| 0 <= x < all[i].len() && all[i][x] == mark;
                        assert(end[x] == mark);
                        assert(end.contains(mark));
                    }
                }
            }
        }
    }
}

/// Taking the marks from the end of text takes them all and nothing else.
pub proof fn law_end_marks_are_taken(text: Seq<char>, mark: char)
    ensures
        without_end(text, mark).is_prefix_of(text),
        forall|i: int|
            without_end(text, mark).len() <= i < text.len() ==> #[trigger] text[i] == mark,
        without_end(text, mark).len() > 0 ==> without_end(text, mark).last() != mark,
    decreases text.len(),
{
    if text.len() > 0 && text.last() == mark {
        let rest = text.drop_last();
        law_end_marks_are_taken(rest, mark);
        assert forall|i: int| without_end(text, mark).len() <= i < text.len() implies
            #[trigger] text[i] == mark by {
            if i < rest.len() {
                assert(text[i] == rest[i]);
            }
        }
        let inner = without_end(text, mark);
        assert(inner =~= text.subrange(0, inner.len() as int)) by {
            assert(inner =~= rest.subrange(0, inner.len() as int));
        }
    } else {
        assert(text =~= text.subrange(0, text.len() as int));
    }
}

/// Text is a word of small letters where the two are as long as each other and differ at
/// most in the case of ASCII letters.
pub proof fn law_words_differ_in_case_only(text: Seq<char>, word: Seq<char>)
    requires
        forall|i: int| 0 <= i < word.len() ==> !('A' <= #[trigger] word[i] <= 'Z'),
    ensures
        is_word(text, word) <==> text.len() == word.len() && forall|i: int|
            0 <= i < text.len() ==> (#[trigger] text[i] == word[i] || (('a' <= word[i] <= 'z')
                && text[i] as u32 + 32 == word[i] as u32)),
{
    let small = text.map_values(|c: char| lowered(c));
    if is_word(text, word) {
        assert forall|i: int| 0 <= i < text.len() implies (#[trigger] text[i] == word[i] || ((
        'a' <= word[i] <= 'z') && text[i] as u32 + 32 == word[i] as u32)) by {
            assert(small[i] == word[i]);
        }
    } else if text.len() == word.len() && forall|i: int|
        0 <= i < text.len() ==> (#[trigger] text[i] == word[i] || (('a' <= word[i] <= 'z')
            && text[i] as u32 + 32 == word[i] as u32)) {
        assert forall|i: int| 0 <= i < text.len() implies small[i] == word[i] by {
            assert(text[i] == word[i] || text[i] as u32 + 32 == word[i] as u32);
        }
        assert(small =~= word);
    }
}

} // verus!
