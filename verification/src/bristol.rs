//! Lines of a circuit file in Bristol fashion.

use vstd::prelude::*;

verus! {

/// Whether `c` has the Unicode property `White_Space`.
pub open spec fn is_white(c: char) -> bool {
    ||| '\u{9}' <= c <= '\u{d}'
    ||| c == ' '
    ||| c == '\u{85}'
    ||| c == '\u{a0}'
    ||| c == '\u{1680}'
    ||| '\u{2000}' <= c <= '\u{200a}'
    ||| c == '\u{2028}'
    ||| c == '\u{2029}'
    ||| c == '\u{202f}'
    ||| c == '\u{205f}'
    ||| c == '\u{3000}'
}

/// The words of `s`, separated by white space. A character that is not white
/// space prolongs the last word, or starts one at the beginning or after white
/// space.
pub open spec fn words(s: Seq<char>) -> Seq<Seq<char>>
    decreases s.len(),
{
    if s.len() == 0 {
        Seq::empty()
    } else {
        let before = words(s.drop_last());
        if is_white(s.last()) {
            before
        } else if s.len() == 1 || is_white(s[s.len() - 2]) {
            before.push(seq![s.last()])
        } else {
            before.drop_last().push(before.last().push(s.last()))
        }
    }
}

/// No word is empty, and none holds white space. Where the text does not end in
/// white space, there is a word.
pub proof fn law_words(s: Seq<char>)
    ensures
        s.len() > 0 && !is_white(s.last()) ==> words(s).len() > 0,
        forall|i: int| 0 <= i < words(s).len() ==> (#[trigger] words(s)[i]).len() > 0,
        forall|i: int, j: int|
            0 <= i < words(s).len() && 0 <= j < words(s)[i].len() ==> !is_white(
                #[trigger] words(s)[i][j],
            ),
    decreases s.len(),
{
    if s.len() > 0 {
        let before = words(s.drop_last());
        law_words(s.drop_last());
        assert forall|i: int| 0 <= i < words(s).len() implies {
            &&& (#[trigger] words(s)[i]).len() > 0
            &&& forall|j: int| 0 <= j < words(s)[i].len() ==> !is_white(#[trigger] words(s)[i][j])
        } by {
            if i < before.len() {
                assert(before[i].len() > 0);
                assert(forall|j: int| 0 <= j < before[i].len() ==> !is_white(before[i][j]));
            }
        }
    }
}

fn white(c: char) -> (w: bool)
    ensures
        w == is_white(c),
{
    ('\u{9}' <= c && c <= '\u{d}') || c == ' ' || c == '\u{85}' || c == '\u{a0}' || c == '\u{1680}'
        || ('\u{2000}' <= c && c <= '\u{200a}') || c == '\u{2028}' || c == '\u{2029}' || c
        == '\u{202f}' || c == '\u{205f}' || c == '\u{3000}'
}

/// Splits a line into its words.
fn split_words(line: &str) -> (split: Vec<Vec<char>>)
    ensures
        split@.map_values(|w: Vec<char>| w@) == words(line@),
{
    let mut split: Vec<Vec<char>> = Vec::new();
    let mut last: Option<char> = None;
    assert(line@.take(0) == Seq::<char>::empty());
    assert(split@.map_values(|w: Vec<char>| w@) == words(line@.take(0)));
    for c in chars: line.chars()
        invariant
            chars.seq() == line@,
            split@.map_values(|w: Vec<char>| w@) == words(line@.take(chars.index() as int)),
            chars.index() == 0 ==> last is None,
            chars.index() > 0 ==> last == Some(line@[chars.index() - 1]),
    {
        proof {
            let i = chars.index() as int;
            assert(line@.take(i + 1).drop_last() == line@.take(i));
            law_words(line@.take(i));
        }
        let ghost before = split@.map_values(|w: Vec<char>| w@);
        if !white(c) {
            let starts = match last {
                Some(p) => white(p),
                None => true,
            };
            if starts {
                let mut word: Vec<char> = Vec::new();
                word.push(c);
                split.push(word);
                assert(word@ == seq![c]);
                assert(split@.map_values(|w: Vec<char>| w@) == before.push(seq![c]));
            } else {
                let mut word = split.pop().unwrap();
                word.push(c);
                split.push(word);
                assert(split@.map_values(|w: Vec<char>| w@) == before.drop_last().push(
                    before.last().push(c),
                ));
            }
        }
        last = Some(c);
    }
    assert(line@.take(line@.len() as int) == line@);
    split
}

/// Whether every character of `s` is a decimal digit.
pub open spec fn all_digits(s: Seq<char>) -> bool {
    forall|i: int| 0 <= i < s.len() ==> '0' <= #[trigger] s[i] <= '9'
}

/// The number that the decimal digits `s` write.
pub open spec fn decimal(s: Seq<char>) -> nat
    decreases s.len(),
{
    if s.len() == 0 {
        0
    } else {
        10 * decimal(s.drop_last()) + (s.last() as nat - '0' as nat) as nat
    }
}

/// `s` without a leading plus sign.
pub open spec fn unsigned(s: Seq<char>) -> Seq<char> {
    if s.len() > 0 && s[0] == '+' {
        s.skip(1)
    } else {
        s
    }
}

/// The wire index that `s` writes: decimal digits, at least one, behind an
/// optional plus sign, for a number that is not too large.
pub open spec fn wire_index(s: Seq<char>) -> Option<usize> {
    let digits = unsigned(s);
    if digits.len() > 0 && all_digits(digits) && decimal(digits) <= usize::MAX {
        Some(decimal(digits) as usize)
    } else {
        None
    }
}

/// A number does not shrink when digits are added behind.
proof fn lemma_decimal_grows(s: Seq<char>, i: int)
    requires
        0 <= i <= s.len(),
    ensures
        decimal(s.take(i)) <= decimal(s),
    decreases s.len(),
{
    if i < s.len() {
        lemma_decimal_grows(s.drop_last(), i);
        assert(s.drop_last().take(i) == s.take(i));
    } else {
        assert(s.take(i) == s);
    }
}

/// Reads a wire index.
fn parse_wire(word: &Vec<char>) -> (index: Option<usize>)
    ensures
        index == wire_index(word@),
{
    let from: usize = if word.len() > 0 && word[0] == '+' {
        1
    } else {
        0
    };
    let ghost digits = unsigned(word@);
    assert(digits == word@.skip(from as int));
    if word.len() == from {
        return None;
    }
    let mut value: usize = 0;
    assert(digits.take(0) == Seq::<char>::empty());
    for i in from..word.len()
        invariant
            from <= word@.len(),
            digits == unsigned(word@),
            digits == word@.skip(from as int),
            value == decimal(digits.take(i - from)),
            all_digits(digits.take(i - from)),
    {
        let c = word[i];
        let ghost k = i - from;
        assert(digits[k] == c);
        if c < '0' || '9' < c {
            return None;
        }
        let digit = (c as u32 - '0' as u32) as usize;
        proof {
            assert(digits.take(k + 1).drop_last() == digits.take(k));
            assert(digits.take(k + 1).last() == c);
            lemma_decimal_grows(digits, k + 1);
        }
        if value > usize::MAX / 10 {
            return None;
        }
        if digit > usize::MAX - 10 * value {
            return None;
        }
        value = 10 * value + digit;
        assert forall|j: int| 0 <= j < k + 1 implies '0' <= #[trigger] digits.take(k + 1)[j]
            <= '9' by {
            if j < k {
                assert(digits.take(k)[j] == digits.take(k + 1)[j]);
            }
        }
    }
    assert(digits.take(digits.len() as int) == digits);
    Some(value)
}

/// The wires of an AND gate, as a line of a circuit file names them.
#[derive(Debug, Copy, Clone, PartialEq, Eq, Structural)]
pub struct AndWires {
    pub left: usize,
    pub right: usize,
    pub out: usize,
}

/// Which wire of an AND gate is not an index, with those that were read before.
#[derive(Debug, Copy, Clone, PartialEq, Eq, Structural)]
pub enum LineError {
    InvalidLeft,
    InvalidRight { left: usize },
    InvalidOut { left: usize, right: usize },
}

/// Whether the words of a line are those of an AND gate.
pub open spec fn is_and(line: Seq<Seq<char>>) -> bool {
    line.len() > 0 && line.last() == "AND"@
}

/// Whether the words of a line, where they are those of an AND gate, reach as
/// far as its left wire.
pub open spec fn is_complete(line: Seq<Seq<char>>) -> bool {
    is_and(line) ==> line.len() >= 3
}

/// What the words of a line say: nothing, unless they are those of an AND gate.
/// Two counts stand before the input wires and the output wire, which are read
/// in this order. In a line that is too short, the word `AND` itself stands
/// where a wire is read, and it is no index.
pub open spec fn and_wires(line: Seq<Seq<char>>) -> Result<Option<AndWires>, LineError> {
    if !is_and(line) {
        Ok(None)
    } else {
        match wire_index(line[2]) {
            None => Err(LineError::InvalidLeft),
            Some(left) => match wire_index(line[3]) {
                None => Err(LineError::InvalidRight { left }),
                Some(right) => match wire_index(line[4]) {
                    None => Err(LineError::InvalidOut { left, right }),
                    Some(out) => Ok(Some(AndWires { left, right, out })),
                },
            },
        }
    }
}

/// The wires that a line names before the first that is not an index.
pub open spec fn wires_read(line: Seq<Seq<char>>) -> Seq<usize> {
    match and_wires(line) {
        Ok(None) => seq![],
        Ok(Some(wires)) => seq![wires.left, wires.right, wires.out],
        Err(LineError::InvalidLeft) => seq![],
        Err(LineError::InvalidRight { left }) => seq![left],
        Err(LineError::InvalidOut { left, right }) => seq![left, right],
    }
}

/// The word `AND` is no index.
proof fn lemma_and_is_no_index()
    ensures
        wire_index("AND"@) is None,
{
    reveal_strlit("AND");
    assert("AND"@[0] == 'A');
}

fn last_is_and(line: &Vec<Vec<char>>) -> (b: bool)
    ensures
        b == is_and(line@.map_values(|w: Vec<char>| w@)),
{
    let ghost all = line@.map_values(|w: Vec<char>| w@);
    proof {
        reveal_strlit("AND");
    }
    if line.len() == 0 {
        return false;
    }
    let word = &line[line.len() - 1];
    assert(all.last() == word@);
    let same = word.len() == 3 && word[0] == 'A' && word[1] == 'N' && word[2] == 'D';
    assert(same ==> word@ == "AND"@);
    same
}

/// Whether a line, where it is that of an AND gate, reaches as far as its left
/// wire.
pub fn line_is_complete(line: &str) -> (complete: bool)
    ensures
        complete == is_complete(words(line@)),
{
    let line = split_words(line);
    !last_is_and(&line) || line.len() >= 3
}

/// Reads a line of a circuit file: the wires of an AND gate, or nothing for any
/// other line.
pub fn parse_line(line: &str) -> (result: Result<Option<AndWires>, LineError>)
    requires
        is_complete(words(line@)),
    ensures
        result == and_wires(words(line@)),
{
    let ghost all = words(line@);
    let line = split_words(line);
    assert(forall|i: int| 0 <= i < all.len() ==> #[trigger] all[i] == line@[i]@);
    if !last_is_and(&line) {
        return Ok(None);
    }
    proof {
        lemma_and_is_no_index();
    }
    let left = match parse_wire(&line[2]) {
        Some(left) => left,
        None => return Err(LineError::InvalidLeft),
    };
    let right = match parse_wire(&line[3]) {
        Some(right) => right,
        None => return Err(LineError::InvalidRight { left }),
    };
    let out = match parse_wire(&line[4]) {
        Some(out) => out,
        None => return Err(LineError::InvalidOut { left, right }),
    };
    Ok(Some(AndWires { left, right, out }))
}

} // verus!
