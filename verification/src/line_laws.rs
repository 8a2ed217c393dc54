//! What holds of the lines of a circuit file.

use crate::bristol::AndWires;
use crate::bristol::LineError;
use vstd::prelude::*;

verus! {

/// The code points of the characters that separate words.
pub open spec fn white_codes() -> Seq<u32> {
    seq![
        0x9u32, 0xau32, 0xbu32, 0xcu32, 0xdu32, 0x20u32, 0x85u32, 0xa0u32, 0x1680u32,
        0x2000u32, 0x2001u32, 0x2002u32, 0x2003u32, 0x2004u32, 0x2005u32, 0x2006u32,
        0x2007u32, 0x2008u32, 0x2009u32, 0x200au32, 0x2028u32, 0x2029u32, 0x202fu32,
        0x205fu32, 0x3000u32,
    ]
}

/// A character separates words just when it is one of twenty-five.
pub proof fn law_white_space(c: char)
    ensures
        crate::bristol::is_white(c) <==> white_codes().contains(c as u32),
{
    let codes = white_codes();
    assert(codes[0] == 0x9 && codes[1] == 0xa && codes[2] == 0xb && codes[3] == 0xc);
    assert(codes[4] == 0xd && codes[5] == 0x20 && codes[6] == 0x85 && codes[7] == 0xa0);
    assert(codes[8] == 0x1680 && codes[9] == 0x2000 && codes[10] == 0x2001);
    assert(codes[11] == 0x2002 && codes[12] == 0x2003 && codes[13] == 0x2004);
    assert(codes[14] == 0x2005 && codes[15] == 0x2006 && codes[16] == 0x2007);
    assert(codes[17] == 0x2008 && codes[18] == 0x2009 && codes[19] == 0x200a);
    assert(codes[20] == 0x2028 && codes[21] == 0x2029 && codes[22] == 0x202f);
    assert(codes[23] == 0x205f && codes[24] == 0x3000);
}

/// Whether no character of `s` separates words.
pub open spec fn is_solid(s: Seq<char>) -> bool {
    forall|i: int| 0 <= i < s.len() ==> !white_codes().contains(#[trigger] s[i] as u32)
}

/// Whether every character of `s` separates words.
pub open spec fn is_blank(s: Seq<char>) -> bool {
    forall|i: int| 0 <= i < s.len() ==> white_codes().contains(#[trigger] s[i] as u32)
}

/// The text that holds the words `ws`, with the gaps before, between and behind
/// them.
pub open spec fn spaced(ws: Seq<Seq<char>>, gaps: Seq<Seq<char>>) -> Seq<char>
    decreases ws.len(),
{
    if ws.len() == 0 {
        gaps[0]
    } else {
        spaced(ws.drop_last(), gaps.drop_last()) + ws.last() + gaps.last()
    }
}

/// Whether `ws` are words and `gaps` can stand before, between and behind them:
/// no gap between two words is empty.
pub open spec fn can_be_spaced(ws: Seq<Seq<char>>, gaps: Seq<Seq<char>>) -> bool {
    &&& gaps.len() == ws.len() + 1
    &&& forall|i: int| 0 <= i < ws.len() ==> (#[trigger] ws[i]).len() > 0 && is_solid(ws[i])
    &&& forall|i: int| 0 <= i < gaps.len() ==> is_blank(#[trigger] gaps[i])
    &&& forall|i: int| 0 < i < ws.len() ==> (#[trigger] gaps[i]).len() > 0
}

proof fn lemma_blank_behind(s: Seq<char>, gap: Seq<char>)
    requires
        is_blank(gap),
    ensures
        crate::bristol::words(s + gap) == crate::bristol::words(s),
    decreases gap.len(),
{
    if gap.len() == 0 {
        assert(s + gap == s);
    } else {
        let init = gap.drop_last();
        assert forall|i: int| 0 <= i < init.len() implies white_codes().contains(
            #[trigger] init[i] as u32,
        ) by {
            assert(init[i] == gap[i]);
        }
        lemma_blank_behind(s, init);
        assert((s + gap).drop_last() == s + init);
        assert(white_codes().contains(gap[gap.len() - 1] as u32));
        law_white_space(gap.last());
    }
}

proof fn lemma_word_behind(s: Seq<char>, word: Seq<char>)
    requires
        s.len() == 0 || white_codes().contains(s.last() as u32),
        is_solid(word),
        word.len() > 0,
    ensures
        crate::bristol::words(s + word) == crate::bristol::words(s).push(word),
    decreases word.len(),
{
    let init = word.drop_last();
    let text = s + word;
    assert(text.drop_last() == s + init);
    assert(!white_codes().contains(word[word.len() - 1] as u32));
    law_white_space(word.last());
    if word.len() == 1 {
        assert(s + init == s);
        assert(seq![word.last()] == word);
        if s.len() > 0 {
            law_white_space(s.last());
            assert(text[text.len() - 2] == s.last());
        }
    } else {
        assert forall|i: int| 0 <= i < init.len() implies !white_codes().contains(
            #[trigger] init[i] as u32,
        ) by {
            assert(init[i] == word[i]);
        }
        lemma_word_behind(s, init);
        assert(text[text.len() - 2] == word[word.len() - 2]);
        assert(!white_codes().contains(word[word.len() - 2] as u32));
        law_white_space(text[text.len() - 2]);
        assert(init.push(word.last()) == word);
        assert(crate::bristol::words(s).push(init).drop_last() == crate::bristol::words(s));
    }
}

proof fn lemma_spaced_end(ws: Seq<Seq<char>>, gaps: Seq<Seq<char>>)
    requires
        can_be_spaced(ws, gaps),
        ws.len() == 0 || gaps.last().len() > 0,
    ensures
        spaced(ws, gaps).len() > 0 ==> white_codes().contains(spaced(ws, gaps).last() as u32),
{
    let text = spaced(ws, gaps);
    let gap = gaps[gaps.len() - 1];
    assert(is_blank(gap));
    if text.len() > 0 {
        assert(text.last() == gap[gap.len() - 1]);
    }
}

/// Splitting a line undoes spacing its words: whatever words a line is made of,
/// and whatever white space stands around them, they are its words again, in
/// order.
pub proof fn law_words_are_split(ws: Seq<Seq<char>>, gaps: Seq<Seq<char>>)
    requires
        can_be_spaced(ws, gaps),
    ensures
        crate::bristol::words(spaced(ws, gaps)) == ws,
    decreases ws.len(),
{
    if ws.len() == 0 {
        assert(is_blank(gaps[0]));
        lemma_blank_behind(Seq::empty(), gaps[0]);
        assert(Seq::<char>::empty() + gaps[0] == gaps[0]);
        assert(crate::bristol::words(Seq::empty()) == ws);
    } else {
        let before = ws.drop_last();
        let before_gaps = gaps.drop_last();
        let text = spaced(before, before_gaps);
        assert(can_be_spaced(before, before_gaps)) by {
            assert forall|i: int| 0 <= i < before.len() implies (#[trigger] before[i]).len() > 0
                && is_solid(before[i]) by {
                assert(before[i] == ws[i]);
            }
            assert forall|i: int| 0 <= i < before_gaps.len() implies is_blank(
                #[trigger] before_gaps[i],
            ) by {
                assert(before_gaps[i] == gaps[i]);
            }
            assert forall|i: int| 0 < i < before.len() implies (#[trigger] before_gaps[i]).len()
                > 0 by {
                assert(before_gaps[i] == gaps[i]);
            }
        }
        law_words_are_split(before, before_gaps);
        if before.len() > 0 {
            assert(gaps[before.len() as int].len() > 0);
            assert(before_gaps.last() == gaps[before.len() as int]);
        }
        lemma_spaced_end(before, before_gaps);
        assert(ws[ws.len() - 1].len() > 0 && is_solid(ws[ws.len() - 1]));
        assert(is_blank(gaps[gaps.len() - 1]));
        lemma_word_behind(text, ws.last());
        lemma_blank_behind(text + ws.last(), gaps.last());
        assert(before.push(ws.last()) == ws);
    }
}

/// The gaps around the words of `s`, and whether the last of them is empty.
proof fn lemma_gaps_around(s: Seq<char>) -> (gaps: Seq<Seq<char>>)
    ensures
        can_be_spaced(crate::bristol::words(s), gaps),
        spaced(crate::bristol::words(s), gaps) == s,
        s.len() > 0 ==> (gaps.last().len() > 0 <==> white_codes().contains(s.last() as u32)),
    decreases s.len(),
{
    let ws = crate::bristol::words(s);
    if s.len() == 0 {
        let gaps = seq![Seq::<char>::empty()];
        assert(spaced(ws, gaps) =~= s);
        gaps
    } else {
        let init = s.drop_last();
        let c = s.last();
        let before = crate::bristol::words(init);
        let before_gaps = lemma_gaps_around(init);
        let k = before.len() as int;
        law_white_space(c);
        assert(init.push(c) =~= s);
        assert(is_blank(before_gaps[k]));
        if crate::bristol::is_white(c) {
            let gap = before_gaps.last().push(c);
            let gaps = before_gaps.drop_last().push(gap);
            assert forall|i: int| 0 <= i < gap.len() implies white_codes().contains(
                #[trigger] gap[i] as u32,
            ) by {
                if i < gap.len() - 1 {
                    assert(gap[i] == before_gaps[k][i]);
                }
            }
            assert forall|i: int| 0 <= i < gaps.len() implies is_blank(#[trigger] gaps[i]) by {
                if i < k {
                    assert(gaps[i] == before_gaps[i]);
                }
            }
            assert forall|i: int| 0 < i < ws.len() implies (#[trigger] gaps[i]).len() > 0 by {
                assert(gaps[i] == before_gaps[i]);
            }
            assert(gaps.drop_last() =~= before_gaps.drop_last());
            assert(spaced(ws, gaps) =~= spaced(before, before_gaps).push(c));
            gaps
        } else if s.len() == 1 || crate::bristol::is_white(s[s.len() - 2]) {
            if s.len() > 1 {
                law_white_space(init.last());
                assert(init.last() == s[s.len() - 2]);
            }
            let gaps = before_gaps.push(Seq::<char>::empty());
            assert(ws == before.push(seq![c]));
            assert forall|i: int| 0 <= i < ws.len() implies (#[trigger] ws[i]).len() > 0 && is_solid(
                ws[i],
            ) by {
                if i < k {
                    assert(ws[i] == before[i]);
                }
            }
            assert forall|i: int| 0 <= i < gaps.len() implies is_blank(#[trigger] gaps[i]) by {
                if i <= k {
                    assert(gaps[i] == before_gaps[i]);
                }
            }
            assert forall|i: int| 0 < i < ws.len() implies (#[trigger] gaps[i]).len() > 0 by {
                assert(gaps[i] == before_gaps[i]);
                if i == k {
                    assert(init.len() > 0) by {
                        if init.len() == 0 {
                            assert(before.len() == 0);
                        }
                    }
                }
            }
            assert(gaps.drop_last() =~= before_gaps);
            assert(ws.drop_last() =~= before);
            assert(spaced(ws, gaps) =~= spaced(before, before_gaps).push(c));
            gaps
        } else {
            law_white_space(init.last());
            assert(init.last() == s[s.len() - 2]);
            crate::bristol::law_words(init);
            let word = before.last().push(c);
            assert(ws == before.drop_last().push(word));
            assert(before_gaps.last().len() == 0);
            let gaps = before_gaps;
            assert forall|i: int| 0 <= i < ws.len() implies (#[trigger] ws[i]).len() > 0 && is_solid(
                ws[i],
            ) by {
                if i < k - 1 {
                    assert(ws[i] == before[i]);
                } else {
                    assert(before[k - 1].len() > 0 && is_solid(before[k - 1]));
                    assert forall|j: int| 0 <= j < word.len() implies !white_codes().contains(
                        #[trigger] word[j] as u32,
                    ) by {
                        if j < word.len() - 1 {
                            assert(word[j] == before[k - 1][j]);
                        }
                    }
                }
            }
            assert(ws.drop_last() =~= before.drop_last());
            assert(spaced(ws, gaps) =~= spaced(before, before_gaps).push(c));
            gaps
        }
    }
}

/// Every line is its words with white space around them.
pub proof fn law_line_is_its_words(s: Seq<char>)
    ensures
        exists|gaps: Seq<Seq<char>>|
            #[trigger] can_be_spaced(crate::bristol::words(s), gaps) && spaced(
                crate::bristol::words(s),
                gaps,
            ) == s,
{
    let gaps = lemma_gaps_around(s);
    assert(can_be_spaced(crate::bristol::words(s), gaps));
}

/// The digit for a number below ten.
pub open spec fn digit(d: nat) -> char {
    if d == 0 {
        '0'
    } else if d == 1 {
        '1'
    } else if d == 2 {
        '2'
    } else if d == 3 {
        '3'
    } else if d == 4 {
        '4'
    } else if d == 5 {
        '5'
    } else if d == 6 {
        '6'
    } else if d == 7 {
        '7'
    } else if d == 8 {
        '8'
    } else {
        '9'
    }
}

/// The decimal digits of `n`, without leading zeros.
pub open spec fn written(n: nat) -> Seq<char>
    decreases n,
{
    if n < 10 {
        seq![digit(n)]
    } else {
        written(n / 10).push(digit(n % 10))
    }
}

/// Whether `c` is a decimal digit.
pub open spec fn is_digit(c: char) -> bool {
    48 <= c as u32 <= 57
}

/// The number that the text `s` is read as, with one more digit behind.
pub open spec fn one_digit_more(read: Option<usize>, c: char) -> Option<usize> {
    match read {
        Some(k) if 10 * k + (c as u32 - 48) <= usize::MAX => Some(
            (10 * k + (c as u32 - 48)) as usize,
        ),
        _ => None,
    }
}

/// How a wire index is read, character by character. A character behind a
/// number that was read makes it ten times as large and adds its digit, as long
/// as the number fits. Nothing is read with a character that is not a digit, or
/// once a part was not read, but for a plus sign in front.
pub proof fn law_index_is_read_digit_by_digit(s: Seq<char>, c: char)
    ensures
        crate::bristol::wire_index(Seq::<char>::empty()) is None,
        !is_digit(c) ==> crate::bristol::wire_index(s.push(c)) is None,
        is_digit(c) && (s.len() == 0 || s == seq!['+']) ==> crate::bristol::wire_index(s.push(c))
            == Some((c as u32 - 48) as usize),
        is_digit(c) && s.len() > 0 && s != seq!['+'] ==> crate::bristol::wire_index(s.push(c))
            == one_digit_more(crate::bristol::wire_index(s), c),
{
    let more = s.push(c);
    let digits = crate::bristol::unsigned(s);
    let more_digits = crate::bristol::unsigned(more);
    if s.len() == 0 {
        assert(more.skip(1) == Seq::<char>::empty());
        assert(more == seq![c]);
        assert(more.drop_last() == Seq::<char>::empty());
        reveal_with_fuel(crate::bristol::decimal, 2);
        assert(more[0] == c);
        if is_digit(c) {
            assert(more_digits == more);
        }
    } else {
        assert(more_digits == digits.push(c));
        assert(more_digits.drop_last() == digits);
        assert(more_digits[more_digits.len() - 1] == c);
        if s == seq!['+'] {
            assert(digits == Seq::<char>::empty());
            reveal_with_fuel(crate::bristol::decimal, 2);
        } else {
            if digits.len() == 0 {
                assert(s == seq!['+']);
            }
            if is_digit(c) {
                assert(crate::bristol::all_digits(more_digits) == crate::bristol::all_digits(
                    digits,
                )) by {
                    if crate::bristol::all_digits(more_digits) {
                        assert forall|i: int| 0 <= i < digits.len() implies '0'
                            <= #[trigger] digits[i] <= '9' by {
                            assert(more_digits[i] == digits[i]);
                        }
                    }
                }
            }
        }
    }
}

/// Reading a wire index undoes writing it, for every index.
pub proof fn law_index_reads_back(n: usize)
    ensures
        crate::bristol::wire_index(written(n as nat)) == Some(n),
    decreases n,
{
    if n < 10 {
        law_index_is_read_digit_by_digit(Seq::empty(), digit(n as nat));
        assert(Seq::<char>::empty().push(digit(n as nat)) == seq![digit(n as nat)]);
    } else {
        law_index_reads_back((n / 10) as usize);
        lemma_written_is_solid((n / 10) as nat);
        law_index_is_read_digit_by_digit(written((n / 10) as nat), digit((n % 10) as nat));
    }
}

/// Different wires are written differently, and read as different wires.
pub proof fn law_indices_are_told_apart(n: usize, m: usize)
    requires
        crate::bristol::wire_index(written(n as nat)) == crate::bristol::wire_index(
            written(m as nat),
        ),
    ensures
        n == m,
{
    law_index_reads_back(n);
    law_index_reads_back(m);
}

/// A plus sign in front of an index, and zeros in front of it, change nothing.
pub proof fn law_signs_and_zeros_are_skipped(s: Seq<char>)
    requires
        s.len() > 0,
        s[0] != '+',
    ensures
        crate::bristol::wire_index(seq!['+'] + s) == crate::bristol::wire_index(s),
        crate::bristol::wire_index(seq!['0'] + s) == crate::bristol::wire_index(s),
        crate::bristol::wire_index(seq!['+', '+'] + s) is None,
    decreases s.len(),
{
    let init = s.drop_last();
    let c = s.last();
    let plus = seq!['+'];
    let zero = seq!['0'];
    let twice = seq!['+', '+'];
    assert(init.push(c) == s);
    assert((plus + init).push(c) == plus + s);
    assert((zero + init).push(c) == zero + s);
    assert((twice + init).push(c) == twice + s);
    law_index_is_read_digit_by_digit(init, c);
    law_index_is_read_digit_by_digit(plus + init, c);
    law_index_is_read_digit_by_digit(zero + init, c);
    law_index_is_read_digit_by_digit(twice + init, c);
    assert((twice + init).len() > 1);
    assert(twice + init != plus);
    assert((zero + init)[0] == '0' && plus[0] == '+');
    assert(zero + init != plus);
    if init.len() == 0 {
        assert(init == Seq::<char>::empty());
        assert(plus + init == plus);
        assert(zero + init == zero);
        assert(twice + init == twice);
        law_index_is_read_digit_by_digit(init, '0');
        assert(init.push('0') == zero);
        law_index_is_read_digit_by_digit(plus, '+');
        assert(plus.push('+') == twice);
    } else {
        assert(init[0] == s[0]);
        assert(init != plus);
        assert((plus + init).len() > 1);
        assert(plus + init != plus);
        law_signs_and_zeros_are_skipped(init);
    }
}

/// A written index is a word: digits only, and at least one.
proof fn lemma_written_is_solid(n: nat)
    ensures
        written(n).len() > 0,
        forall|i: int| 0 <= i < written(n).len() ==> is_digit(#[trigger] written(n)[i]),
    decreases n,
{
    if n >= 10 {
        lemma_written_is_solid(n / 10);
    }
}

/// The words of a line, where they are `ws` with white space around them, and how
/// the words say which gate the line stands for. A line whose last word is not
/// `AND` stands for none. In any other, the third, the fourth and the fifth word
/// are the wires, read in this order, and the first that is not an index is
/// refused, with those before it.
pub proof fn law_line_says_its_wires(ws: Seq<Seq<char>>, gaps: Seq<Seq<char>>)
    requires
        can_be_spaced(ws, gaps),
    ensures
        ({
            let said = crate::bristol::and_wires(crate::bristol::words(spaced(ws, gaps)));
            let named = ws.len() > 0 && ws.last() == seq!['A', 'N', 'D'];
            let left = crate::bristol::wire_index(ws[2]);
            let right = crate::bristol::wire_index(ws[3]);
            let out = crate::bristol::wire_index(ws[4]);
            &&& crate::bristol::is_complete(crate::bristol::words(spaced(ws, gaps))) <==> !(named
                && ws.len() < 3)
            &&& !named <==> said == Ok::<Option<AndWires>, LineError>(None)
            &&& named && ws.len() >= 3 && left is None ==> said == Err::<Option<AndWires>, _>(
                LineError::InvalidLeft,
            )
            &&& named && ws.len() >= 3 && left is Some && right is None ==> said == Err::<Option<AndWires>, _>(
                LineError::InvalidRight { left: left.unwrap() },
            )
            &&& named && ws.len() >= 3 && left is Some && right is Some && out is None ==> said == Err::<
                Option<AndWires>,
                _,
            >(LineError::InvalidOut { left: left.unwrap(), right: right.unwrap() })
            &&& named && ws.len() >= 3 && left is Some && right is Some && out is Some ==> said == Ok::<_, LineError>(
                Some(
                    AndWires {
                        left: left.unwrap(),
                        right: right.unwrap(),
                        out: out.unwrap(),
                    },
                ),
            )
        }),
{
    law_words_are_split(ws, gaps);
    reveal_strlit("AND");
    assert("AND"@ =~= seq!['A', 'N', 'D']);
}

/// Reading a line undoes writing it: a line with the wires of an AND gate behind
/// two other words, and `AND` last, is read as that gate, whatever the wires, the
/// other words and the white space.
pub proof fn law_gate_line_reads_back(wires: AndWires, ws: Seq<Seq<char>>, gaps: Seq<Seq<char>>)
    requires
        can_be_spaced(ws, gaps),
        ws.len() >= 6,
        ws[2] == written(wires.left as nat),
        ws[3] == written(wires.right as nat),
        ws[4] == written(wires.out as nat),
        ws.last() == seq!['A', 'N', 'D'],
    ensures
        crate::bristol::and_wires(crate::bristol::words(spaced(ws, gaps))) == Ok::<_, LineError>(
            Some(wires),
        ),
{
    law_line_says_its_wires(ws, gaps);
    law_index_reads_back(wires.left);
    law_index_reads_back(wires.right);
    law_index_reads_back(wires.out);
}

/// A line that ends before its wires do is refused at the word `AND`, which
/// stands where a wire is read.
pub proof fn law_short_line_is_refused(ws: Seq<Seq<char>>, gaps: Seq<Seq<char>>)
    requires
        can_be_spaced(ws, gaps),
        3 <= ws.len() <= 5,
        ws.last() == seq!['A', 'N', 'D'],
    ensures
        crate::bristol::and_wires(crate::bristol::words(spaced(ws, gaps))) is Err,
{
    law_line_says_its_wires(ws, gaps);
    law_index_is_read_digit_by_digit(seq!['A', 'N'], 'D');
    assert(seq!['A', 'N'].push('D') == seq!['A', 'N', 'D']);
}

/// The wires that a line names before the first that is not an index, in order:
/// all three of a gate, and none for a line without one.
pub proof fn law_wires_are_read_in_order(line: Seq<Seq<char>>)
    ensures
        ({
            let read = crate::bristol::wires_read(line);
            match crate::bristol::and_wires(line) {
                Ok(None) => read.len() == 0,
                Ok(Some(wires)) => read.len() == 3 && read[0] == wires.left && read[1]
                    == wires.right && read[2] == wires.out,
                Err(LineError::InvalidLeft) => read.len() == 0,
                Err(LineError::InvalidRight { left }) => read.len() == 1 && read[0] == left,
                Err(LineError::InvalidOut { left, right }) => read.len() == 2 && read[0] == left
                    && read[1] == right,
            }
        }),
{
}

} // verus!
