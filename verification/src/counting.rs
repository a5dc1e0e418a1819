//! What positions and summaries count.

use crate::reading::lemma_encode_concat;
use crate::text::{
    end_of, lemma_pos_order, lemma_pos_split, lemma_summary_concat, lemma_summary_wf, pos_add,
    pos_le, pos_lt, pos_min, pos_sub, summary_of,
};
use vstd::prelude::*;
use vstd::utf8::{char_is_scalar, encode_scalar, encode_utf8, encode_utf8_first_scalar};

verus! {

/// A position counts the newlines before it and the bytes behind the last of them.
pub proof fn law_end_of(s: Seq<u8>)
    ensures
        end_of(s).row == s.to_multiset().count(10u8),
        0 <= end_of(s).column <= s.len(),
        forall|i: int| s.len() - end_of(s).column <= i < s.len() ==> #[trigger] s[i] != 10u8,
        end_of(s).column < s.len() ==> s[s.len() - end_of(s).column - 1] == 10u8,
    decreases s.len(),
{
    broadcast use vstd::seq_lib::group_to_multiset_ensures;

    if s.len() > 0 {
        let before = s.drop_last();
        law_end_of(before);
        assert(s =~= before.push(s.last()));
        assert(s.to_multiset() == before.to_multiset().insert(s.last()));
        assert forall|i: int| s.len() - end_of(s).column <= i < s.len() implies #[trigger] s[i]
            != 10u8 by {
            if i < before.len() {
                assert(before[i] == s[i]);
            }
        }
        if end_of(s).column < s.len() && s.last() != 10u8 {
            assert(before[before.len() - end_of(before).column - 1] == 10u8);
        }
    } else {
        assert(s.to_multiset().count(10u8) == 0);
    }
}

/// The code units that a character takes in UTF-16.
pub open spec fn units_of(c: char) -> int {
    if c as u32 >= 0x10000 {
        2
    } else {
        1
    }
}

/// The code units that characters take in UTF-16.
pub open spec fn utf16_len(s: Seq<char>) -> int
    decreases s.len(),
{
    if s.len() == 0 {
        0
    } else {
        utf16_len(s.drop_last()) + units_of(s.last())
    }
}

/// The rows of a text: what stands between its newlines.
pub open spec fn rows_of(s: Seq<char>) -> Seq<Seq<char>>
    decreases s.len(),
{
    if s.len() == 0 {
        seq![Seq::empty()]
    } else {
        let before = rows_of(s.drop_last());
        if s.last() == '\n' {
            before.push(Seq::empty())
        } else {
            before.drop_last().push(before.last().push(s.last()))
        }
    }
}

/// What one character measures.
proof fn lemma_char_summary(c: char)
    ensures
        ({
            let bytes = encode_utf8(seq![c]);
            let m = summary_of(bytes);
            &&& m.len == bytes.len()
            &&& m.len > 0
            &&& m.chars == 1
            &&& m.len_utf16 == units_of(c)
            &&& c == '\n' ==> {
                &&& m.lines.row == 1
                &&& m.lines.column == 0
                &&& m.first_line_chars == 0
                &&& m.last_line_chars == 0
                &&& m.last_line_len_utf16 == 0
                &&& m.longest_row_chars == 0
                &&& m.longest_row == 0
            }
            &&& c != '\n' ==> {
                &&& m.lines.row == 0
                &&& m.lines.column == bytes.len()
                &&& m.first_line_chars == 1
                &&& m.last_line_chars == 1
                &&& m.last_line_len_utf16 == units_of(c)
                &&& m.longest_row_chars == 1
                &&& m.longest_row == 0
            }
        }),
{
    let v = c as u32;
    let bytes = encode_utf8(seq![c]);
    char_is_scalar(c);
    encode_utf8_first_scalar(seq![c]);
    assert(seq![c].drop_first() =~= Seq::<char>::empty());
    reveal_with_fuel(encode_utf8, 2);
    assert(bytes =~= encode_scalar(v));
    let first = bytes[0];
    assert(first <= 0x7f ==> (first & 0x7f) as u32 == first) by (bit_vector);
    reveal_with_fuel(summary_of, 5);
    let n = bytes.len() as int;
    assert(bytes.drop_last().len() == n - 1);
    if n >= 2 {
        assert(bytes.drop_last() =~= bytes.take(n - 1));
        assert(bytes.take(n - 1).drop_last() =~= bytes.take(n - 2));
    }
    if n >= 3 {
        assert(bytes.take(n - 2).drop_last() =~= bytes.take(n - 3));
    }
    if n >= 4 {
        assert(bytes.take(n - 3).drop_last() =~= bytes.take(n - 4));
    }
    lemma_summary_wf(bytes);
}

/// A summary counts the bytes, the characters and the code units of a text, its rows, the
/// bytes of its last row, the characters of its first, last and longest rows, and the code
/// units of its last row. Of rows that are equally long the first is the longest.
pub proof fn law_summary(s: Seq<char>)
    ensures
        ({
            let m = summary_of(encode_utf8(s));
            let rows = rows_of(s);
            &&& m.len == encode_utf8(s).len()
            &&& m.chars == s.len()
            &&& m.len_utf16 == utf16_len(s)
            &&& m.lines.row == rows.len() - 1
            &&& m.lines.column == encode_utf8(rows.last()).len()
            &&& m.first_line_chars == rows[0].len()
            &&& m.last_line_chars == rows.last().len()
            &&& m.last_line_len_utf16 == utf16_len(rows.last())
            &&& 0 <= m.longest_row < rows.len()
            &&& m.longest_row_chars == rows[m.longest_row].len()
            &&& forall|i: int|
                0 <= i < rows.len() ==> (#[trigger] rows[i]).len() <= m.longest_row_chars
            &&& forall|i: int|
                0 <= i < m.longest_row ==> (#[trigger] rows[i]).len() < m.longest_row_chars
        }),
    decreases s.len(),
{
    let rows = rows_of(s);
    if s.len() == 0 {
        reveal_with_fuel(encode_utf8, 1);
        assert(encode_utf8(s).len() == 0);
        assert(rows[0].len() == 0);
    } else {
        let c = s.last();
        let before = s.drop_last();
        let old_rows = rows_of(before);
        let a = encode_utf8(before);
        let b = encode_utf8(seq![c]);
        law_summary(before);
        lemma_char_summary(c);
        assert(s =~= before + seq![c]);
        lemma_encode_concat(before, seq![c]);
        lemma_summary_concat(a, b);
        if c == '\n' {
            assert(encode_utf8(rows.last()).len() == 0);
            assert forall|i: int| 0 <= i < rows.len() implies (#[trigger] rows[i]).len()
                <= summary_of(a).longest_row_chars by {
                if i < old_rows.len() {
                    assert(rows[i] == old_rows[i]);
                }
            }
        } else {
            let n = old_rows.len() - 1;
            let last = old_rows.last();
            assert(last.push(c) =~= last + seq![c]);
            lemma_encode_concat(last, seq![c]);
            assert(last.push(c).drop_last() =~= last);
            assert forall|i: int| 0 <= i < n implies rows[i] == #[trigger] old_rows[i] by {}
            assert(rows[n] == last.push(c));
        }
    }
}

/// A row holds no newline, and the rows side by side, with a newline between any two, are
/// the text.
pub proof fn law_rows_of(s: Seq<char>)
    ensures
        rows_of(s).len() > 0,
        forall|i: int, j: int|
            0 <= i < rows_of(s).len() && 0 <= j < rows_of(s)[i].len() ==> #[trigger] rows_of(
                s,
            )[i][j] != '\n',
        joined(rows_of(s)) == s,
    decreases s.len(),
{
    let rows = rows_of(s);
    if s.len() == 0 {
        assert(joined(rows) =~= s);
    } else {
        let before = rows_of(s.drop_last());
        let n = before.len() - 1;
        law_rows_of(s.drop_last());
        assert(s =~= s.drop_last().push(s.last()));
        assert forall|i: int, j: int|
            0 <= i < rows.len() && 0 <= j < rows[i].len() implies #[trigger] rows[i][j]
            != '\n' by {
            if i < n {
                assert(rows[i] == before[i]);
                assert(before[i][j] != '\n');
            } else if i == n && j < before[n].len() {
                assert(before[n][j] != '\n');
            }
        }
        if s.last() == '\n' {
            assert(rows.drop_last() =~= before);
            assert(joined(rows) =~= joined(before).push('\n'));
        } else {
            assert(rows.drop_last() =~= before.drop_last());
            assert(joined(rows) =~= s);
        }
    }
}

/// Rows side by side, with a newline between any two.
pub open spec fn joined(rows: Seq<Seq<char>>) -> Seq<char>
    decreases rows.len(),
{
    if rows.len() == 0 {
        Seq::empty()
    } else if rows.len() == 1 {
        rows[0]
    } else {
        joined(rows.drop_last()).push('\n') + rows.last()
    }
}

/// Positions are added, subtracted and ordered as the texts that end there: moving across a
/// text from where another ends gives where both end side by side, and the earlier of two
/// positions is that of the earlier offset.
pub proof fn law_positions(s: Seq<u8>, i: int, j: int)
    requires
        0 <= i <= j <= s.len(),
    ensures
        pos_add(end_of(s.take(i)), end_of(s.subrange(i, j))) == end_of(s.take(j)),
        pos_sub(end_of(s.take(j)), end_of(s.take(i))) == end_of(s.subrange(i, j)),
        pos_min(end_of(s.take(i)), end_of(s.take(j))) == end_of(s.take(i)),
        pos_min(end_of(s.take(j)), end_of(s.take(i))) == end_of(s.take(i)),
        pos_le(end_of(s.take(i)), end_of(s.take(j))),
        i < j ==> !pos_le(end_of(s.take(j)), end_of(s.take(i))),
        i < j <==> pos_lt(end_of(s.take(i)), end_of(s.take(j))),
        !pos_lt(end_of(s.take(j)), end_of(s.take(i))),
{
    lemma_pos_split(s, i, j);
    lemma_pos_order(s, i, j);
    lemma_pos_order(s, j, i);
}

} // verus!
