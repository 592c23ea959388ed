//! Reading a problem from text: numbers parted by white space.
//!
//! The text holds the number of books, the number of libraries and the number
//! of days, then the score of each book, then for each library the number of
//! its books, the days of its signup, the number of books it scans per day,
//! and its books.

use vstd::prelude::*;
use crate::problem::{new_says, Library, MalformedInput, Problem};

verus! {

/// The byte is a blank, a tab, a line feed or a carriage return.
pub open spec fn is_space(byte: u8) -> bool {
    byte == 32 || byte == 9 || byte == 10 || byte == 13
}

/// The words of a text: its longest runs of bytes that are no white space, in
/// their order.
pub open spec fn words(text: Seq<u8>) -> Seq<Seq<u8>>
    decreases text.len(),
{
    if text.len() == 0 {
        Seq::empty()
    } else {
        let before = words(text.drop_last());
        if is_space(text.last()) {
            before
        } else if text.len() >= 2 && !is_space(text[text.len() - 2]) {
            before.drop_last().push(before.last().push(text.last()))
        } else {
            before.push(seq![text.last()])
        }
    }
}

/// The number that a word of decimal digits stands for. `None` if the word is
/// empty or holds a byte that is no digit.
pub open spec fn decimal(word: Seq<u8>) -> Option<int>
    decreases word.len(),
{
    if word.len() == 0 || word.last() < 48 || word.last() > 57 {
        None
    } else if word.len() == 1 {
        Some(word.last() - 48)
    } else {
        match decimal(word.drop_last()) {
            Some(upper) => Some(upper * 10 + (word.last() - 48)),
            None => None,
        }
    }
}

/// The number that a word stands for, if it stands for one that a `usize`
/// holds.
pub open spec fn number_of(word: Seq<u8>) -> Option<usize> {
    match decimal(word) {
        Some(value) => if value <= usize::MAX {
            Some(value as usize)
        } else {
            None
        },
        None => None,
    }
}

/// A text that ends in a word, and the same text without that word: the
/// words of the first are those of the second and that word.
pub proof fn lemma_words_with_last(text: Seq<u8>, start: int)
    requires
        0 <= start < text.len(),
        start == 0 || is_space(text[start - 1]),
        forall|k: int| start <= k < text.len() ==> !is_space(#[trigger] text[k]),
    ensures
        words(text) == words(text.take(start)).push(text.skip(start)),
    decreases text.len(),
{
    let front = text.drop_last();
    if start == text.len() - 1 {
        assert(front =~= text.take(start));
        assert(text.skip(start) =~= seq![text.last()]);
        if text.len() >= 2 {
            assert(is_space(text[text.len() - 2]));
        }
    } else {
        assert(!is_space(text[text.len() - 2]));
        lemma_words_with_last(front, start);
        assert(front.take(start) =~= text.take(start));
        assert(front.skip(start).push(text.last()) =~= text.skip(start));
        let before = words(front);
        assert(before.drop_last() =~= words(text.take(start)));
    }
}

/// The words of a text that ends where a word ends stay what they are when
/// the text goes on.
pub proof fn lemma_words_stay(text: Seq<u8>, end: int, longer: int)
    requires
        0 <= end <= longer <= text.len(),
        end < text.len() ==> is_space(text[end]),
    ensures
        words(text.take(end)).len() <= words(text.take(longer)).len(),
        words(text.take(longer)).take(words(text.take(end)).len() as int) == words(
            text.take(end),
        ),
        longer > end && !is_space(text[longer - 1]) ==> words(text.take(end)).len() < words(
            text.take(longer),
        ).len(),
    decreases longer - end,
{
    let done = words(text.take(end));
    if longer == end {
        assert(words(text.take(longer)).take(done.len() as int) =~= done);
    } else {
        lemma_words_stay(text, end, longer - 1);
        let part = text.take(longer);
        assert(part.drop_last() =~= text.take(longer - 1));
        let before = words(text.take(longer - 1));
        let now = words(part);
        assert(part.last() == text[longer - 1]);
        if !is_space(part.last()) {
            if part.len() >= 2 && !is_space(part[part.len() - 2]) {
                assert(part[part.len() - 2] == text[longer - 2]);
                assert(longer - 1 > end);
            }
            assert(now.take(done.len() as int) =~= before.take(done.len() as int));
        }
    }
}

/// What a word with one more byte stands for.
pub proof fn lemma_number_with_digit(word: Seq<u8>, byte: u8)
    ensures
        number_of(word.push(byte)) == if byte < 48 || byte > 57 {
            None
        } else if word.len() == 0 {
            Some((byte - 48) as usize)
        } else {
            match number_of(word) {
                Some(upper) => if upper * 10 + (byte - 48) <= usize::MAX {
                    Some((upper * 10 + (byte - 48)) as usize)
                } else {
                    None
                },
                None => None,
            }
        },
{
    let longer = word.push(byte);
    assert(longer.drop_last() =~= word);
    assert(longer.last() == byte);
    if word.len() > 0 && 48 <= byte <= 57 {
        lemma_decimal_positive(word);
    }
}

/// A word stands for no negative number.
pub proof fn lemma_decimal_positive(word: Seq<u8>)
    ensures
        decimal(word) is Some ==> decimal(word).unwrap() >= 0,
    decreases word.len(),
{
    if word.len() > 1 {
        lemma_decimal_positive(word.drop_last());
    }
}

/// `numbers` are the numbers that the words of `text` stand for.
pub open spec fn numbers_of(text: Seq<u8>, numbers: Seq<usize>) -> bool {
    &&& numbers.len() == words(text).len()
    &&& forall|t: int|
        0 <= t < numbers.len() ==> number_of(words(text)[t]) == Some(#[trigger] numbers[t])
}

/// Word `token` of `text` is the first that stands for no number that a
/// `usize` holds.
pub open spec fn first_bad_word(text: Seq<u8>, token: int) -> bool {
    &&& 0 <= token < words(text).len()
    &&& number_of(words(text)[token]) is None
    &&& forall|t: int| 0 <= t < token ==> (#[trigger] number_of(words(text)[t])) is Some
}

/// Reads the numbers of a text: its words, each a run of decimal digits. It
/// fails at the first word that holds another byte or stands for a number
/// that a `usize` does not hold, and says which word that was.
pub fn read_numbers(text: &[u8]) -> (result: Result<Vec<usize>, MalformedInput>)
    ensures
        match result {
            Ok(numbers) => numbers_of(text@, numbers@),
            Err(MalformedInput::BadNumber { token }) => first_bad_word(text@, token as int),
            Err(_) => false,
        },
{
    let mut numbers: Vec<usize> = Vec::new();
    let mut i: usize = 0;
    proof {
        assert(text@.take(0) =~= Seq::empty());
    }
    while i < text.len()
        invariant
            i <= text@.len(),
            i < text@.len() && i > 0 ==> is_space(text@[i - 1]) || is_space(text@[i as int]),
            numbers_of(text@.take(i as int), numbers@),
        decreases text.len() - i,
    {
        let byte = text[i];
        if byte == 32 || byte == 9 || byte == 10 || byte == 13 {
            proof {
                assert(text@.take(i + 1).drop_last() =~= text@.take(i as int));
            }
            i += 1;
        } else {
            let start = i;
            let mut value: Option<usize> = Some(0);
            while i < text.len() && !(text[i] == 32 || text[i] == 9 || text[i] == 10 || text[i]
                == 13)
                invariant
                    start <= i <= text@.len(),
                    start < text@.len(),
                    !is_space(text@[start as int]),
                    forall|k: int| start <= k < i ==> !is_space(#[trigger] text@[k]),
                    i == start ==> value == Some(0usize),
                    i > start ==> value == number_of(text@.subrange(start as int, i as int)),
                decreases text.len() - i,
            {
                let digit = text[i];
                proof {
                    let word = text@.subrange(start as int, i as int);
                    assert(text@.subrange(start as int, i + 1) =~= word.push(digit));
                    lemma_number_with_digit(word, digit);
                }
                value = match value {
                    Some(upper) => if 48 <= digit && digit <= 57 {
                        match upper.checked_mul(10) {
                            Some(shifted) => shifted.checked_add((digit - 48) as usize),
                            None => None,
                        }
                    } else {
                        None
                    },
                    None => None,
                };
                i += 1;
            }
            proof {
                let part = text@.take(i as int);
                assert(part.take(start as int) =~= text@.take(start as int));
                assert(part.skip(start as int) =~= text@.subrange(start as int, i as int));
                assert forall|k: int| start <= k < part.len() implies !is_space(
                    #[trigger] part[k],
                ) by {
                    assert(part[k] == text@[k]);
                }
                if start > 0 {
                    assert(part[start - 1] == text@[start - 1]);
                }
                lemma_words_with_last(part, start as int);
            }
            match value {
                Some(number) => {
                    numbers.push(number);
                },
                None => {
                    proof {
                        lemma_words_stay(text@, i as int, text@.len() as int);
                        assert(text@.take(text@.len() as int) =~= text@);
                        let done = words(text@.take(i as int));
                        assert(done.len() == numbers@.len() + 1);
                        assert forall|t: int| 0 <= t < done.len() implies words(text@)[t]
                            == done[t] by {
                            assert(words(text@).take(done.len() as int)[t] == done[t]);
                        }
                        assert forall|t: int| 0 <= t < numbers@.len() implies (
                        #[trigger] number_of(words(text@)[t])) is Some by {
                            assert(words(text@.take(start as int))[t] == done[t]);
                            assert(number_of(words(text@.take(start as int))[t]) == Some(
                                numbers@[t],
                            ));
                        }
                        assert(done[numbers@.len() as int] == text@.subrange(
                            start as int,
                            i as int,
                        ));
                        assert(first_bad_word(text@, numbers@.len() as int));
                    }
                    return Err(MalformedInput::BadNumber { token: numbers.len() });
                },
            }
        }
    }
    proof {
        assert(text@.take(i as int) =~= text@);
    }
    Ok(numbers)
}

/// The index at which the numbers of library `l` begin, behind the three
/// numbers of the head, the scores, and the libraries before it.
pub open spec fn library_start(numbers: Seq<usize>, l: nat) -> int
    decreases l,
{
    if l == 0 {
        3 + numbers[0]
    } else {
        let start = library_start(numbers, (l - 1) as nat);
        start + 3 + numbers[start]
    }
}

/// The numbers hold all that they announce: the head, as many scores as
/// there are books, and for each library its three numbers and as many books
/// as it says.
pub open spec fn complete(numbers: Seq<usize>) -> bool {
    &&& numbers.len() >= 3
    &&& 3 + numbers[0] <= numbers.len()
    &&& forall|l: nat|
        l < numbers[1] ==> (#[trigger] library_start(numbers, l)) + 3 <= numbers.len()
            && library_start(numbers, l + 1) <= numbers.len()
}

/// `libraries` are the libraries that the numbers describe, their catalogs
/// in the order in which the numbers give them.
pub open spec fn described(numbers: Seq<usize>, libraries: Seq<Library>) -> bool {
    &&& libraries.len() == numbers[1]
    &&& forall|l: int|
        0 <= l < libraries.len() ==> {
            let start = library_start(numbers, l as nat);
            &&& (#[trigger] libraries[l]).signup == numbers[start + 1]
            &&& libraries[l].concurrency == numbers[start + 2]
            &&& libraries[l].books@ == numbers.subrange(start + 3, start + 3 + numbers[start])
        }
}

/// `result` is what [`from_numbers`] makes of the numbers.
pub open spec fn from_numbers_says(
    numbers: Seq<usize>,
    result: Result<Problem, MalformedInput>,
) -> bool {
    if !complete(numbers) {
        result == Err::<Problem, MalformedInput>(MalformedInput::Truncated)
    } else if library_start(numbers, numbers[1] as nat) != numbers.len() {
        result == Err::<Problem, MalformedInput>(
            MalformedInput::TrailingNumbers {
                token: library_start(numbers, numbers[1] as nat) as usize,
            },
        )
    } else {
        exists|libraries: Seq<Library>| #[trigger]
            described(numbers, libraries) && new_says(
                numbers.subrange(3, 3 + numbers[0]),
                libraries,
                numbers[2],
                result,
            )
    }
}

/// Copies the numbers from index `from` up to index `to`.
fn copy_range(numbers: &Vec<usize>, from: usize, to: usize) -> (copy: Vec<usize>)
    requires
        from <= to <= numbers@.len(),
    ensures
        copy@ == numbers@.subrange(from as int, to as int),
{
    let mut copy: Vec<usize> = Vec::new();
    let mut i: usize = from;
    while i < to
        invariant
            from <= i <= to <= numbers@.len(),
            copy@ == numbers@.subrange(from as int, i as int),
        decreases to - i,
    {
        copy.push(numbers[i]);
        proof {
            assert(copy@ =~= numbers@.subrange(from as int, i + 1));
        }
        i += 1;
    }
    copy
}

/// Makes a problem of the numbers of its text: the number of books, of
/// libraries and of days, the scores, and for each library the number of its
/// books, its signup days, its books per day, and its books. It fails if the
/// numbers end too early or go on beyond the last library, and where
/// [`Problem::new`] refuses the parts.
pub fn from_numbers(numbers: &Vec<usize>) -> (result: Result<Problem, MalformedInput>)
    ensures
        from_numbers_says(numbers@, result),
{
    let len = numbers.len();
    if len < 3 {
        return Err(MalformedInput::Truncated);
    }
    let book_count = numbers[0];
    let library_count = numbers[1];
    let days = numbers[2];
    if book_count > len - 3 {
        return Err(MalformedInput::Truncated);
    }
    let scores = copy_range(numbers, 3, 3 + book_count);
    let mut cursor: usize = 3 + book_count;
    let mut libraries: Vec<Library> = Vec::new();
    let mut l: usize = 0;
    while l < library_count
        invariant
            l <= library_count,
            library_count == numbers@[1],
            len == numbers@.len(),
            len >= 3,
            3 + numbers@[0] <= len,
            cursor == library_start(numbers@, l as nat),
            cursor <= len,
            libraries@.len() == l,
            forall|k: nat|
                k < l ==> (#[trigger] library_start(numbers@, k)) + 3 <= len && library_start(
                    numbers@,
                    k + 1,
                ) <= len,
            forall|k: int|
                0 <= k < l ==> {
                    let start = library_start(numbers@, k as nat);
                    &&& (#[trigger] libraries@[k]).signup == numbers@[start + 1]
                    &&& libraries@[k].concurrency == numbers@[start + 2]
                    &&& libraries@[k].books@ == numbers@.subrange(
                        start + 3,
                        start + 3 + numbers@[start],
                    )
                },
        decreases library_count - l,
    {
        if len - cursor < 3 {
            proof {
                assert(library_start(numbers@, l as nat) + 3 > len);
            }
            return Err(MalformedInput::Truncated);
        }
        let size = numbers[cursor];
        if size > len - cursor - 3 {
            proof {
                assert(library_start(numbers@, (l + 1) as nat) > len);
                assert(library_start(numbers@, l as nat + 1) > len);
            }
            return Err(MalformedInput::Truncated);
        }
        let books = copy_range(numbers, cursor + 3, cursor + 3 + size);
        libraries.push(
            Library { signup: numbers[cursor + 1], concurrency: numbers[cursor + 2], books },
        );
        proof {
            assert(library_start(numbers@, (l + 1) as nat) == cursor + 3 + size);
            assert forall|k: nat| k < l + 1 implies (#[trigger] library_start(numbers@, k)) + 3
                <= len && library_start(numbers@, k + 1) <= len by {
                if k == l {
                    assert(library_start(numbers@, l as nat + 1) == cursor + 3 + size);
                }
            }
        }
        cursor = cursor + 3 + size;
        l += 1;
    }
    proof {
        assert(complete(numbers@));
    }
    if cursor != len {
        return Err(MalformedInput::TrailingNumbers { token: cursor });
    }
    let ghost given = libraries@;
    let result = Problem::new(scores, libraries, days);
    proof {
        assert(described(numbers@, given));
    }
    result
}

/// `result` is what [`parse_problem`] makes of the text: an error for its
/// first word that is no number, else what [`from_numbers`] makes of its
/// numbers.
pub open spec fn parse_says(text: Seq<u8>, result: Result<Problem, MalformedInput>) -> bool {
    if exists|token: int| first_bad_word(text, token) {
        exists|token: usize| #[trigger]
            first_bad_word(text, token as int) && result == Err::<Problem, MalformedInput>(
                MalformedInput::BadNumber { token },
            )
    } else {
        exists|numbers: Seq<usize>| #[trigger]
            numbers_of(text, numbers) && from_numbers_says(numbers, result)
    }
}

/// Reads a problem from its text. See [`read_numbers`] and [`from_numbers`].
pub fn parse_problem(text: &[u8]) -> (result: Result<Problem, MalformedInput>)
    ensures
        parse_says(text@, result),
{
    match read_numbers(text) {
        Ok(numbers) => {
            proof {
                if exists|token: int| first_bad_word(text@, token) {
                    let token = choose|token: int| first_bad_word(text@, token);
                    assert(number_of(words(text@)[token]) == Some(numbers@[token]));
                }
            }
            from_numbers(&numbers)
        },
        Err(fault) => {
            assert(fault matches MalformedInput::BadNumber { token } && first_bad_word(
                text@,
                token as int,
            ));
            Err(fault)
        },
    }
}

} // verus!
