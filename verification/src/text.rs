use vstd::prelude::*;

verus! {

/// The characters that separate fields: the Unicode white-space set, the
/// same set that the standard library's whitespace splitting uses.
pub open spec fn is_space(c: char) -> bool {
    let u = c as u32;
    ||| u == 0x20
    ||| (0x09 <= u && u <= 0x0d)
    ||| u == 0x85
    ||| u == 0xa0
    ||| u == 0x1680
    ||| (0x2000 <= u && u <= 0x200a)
    ||| u == 0x2028
    ||| u == 0x2029
    ||| u == 0x202f
    ||| u == 0x205f
    ||| u == 0x3000
}

/// Runtime test for [`is_space`].
pub fn is_space_char(c: char) -> (r: bool)
    ensures
        r == is_space(c),
{
    let u = c as u32;
    u == 0x20 || (0x09 <= u && u <= 0x0d) || u == 0x85 || u == 0xa0 || u == 0x1680 || (0x2000 <= u
        && u <= 0x200a) || u == 0x2028 || u == 0x2029 || u == 0x202f || u == 0x205f || u == 0x3000
}

/// The white-space-separated fields of `s` from position `i` on, given the
/// partial field `cur` read so far and the fields `acc` already complete.
/// Fields are maximal runs of non-space characters, so every field is
/// non-empty and no separators survive in the result.
pub open spec fn split_from(s: Seq<char>, i: int, cur: Seq<char>, acc: Seq<Seq<char>>) -> Seq<
    Seq<char>,
>
    decreases s.len() - i,
{
    if i < 0 || i >= s.len() {
        if cur.len() == 0 {
            acc
        } else {
            acc.push(cur)
        }
    } else if is_space(s[i]) {
        if cur.len() == 0 {
            split_from(s, i + 1, cur, acc)
        } else {
            split_from(s, i + 1, Seq::empty(), acc.push(cur))
        }
    } else {
        split_from(s, i + 1, cur.push(s[i]), acc)
    }
}

/// The white-space-separated fields of `s`.
pub open spec fn tokens(s: Seq<char>) -> Seq<Seq<char>> {
    split_from(s, 0, Seq::empty(), Seq::empty())
}

/// Completed fields pass through the splitter untouched: the accumulator can
/// be pulled out in front.
pub proof fn lemma_split_from_acc(s: Seq<char>, i: int, cur: Seq<char>, acc: Seq<Seq<char>>)
    ensures
        split_from(s, i, cur, acc) == acc + split_from(s, i, cur, Seq::empty()),
    decreases s.len() - i,
{
    let empty = Seq::<Seq<char>>::empty();
    if i < 0 || i >= s.len() {
        if cur.len() == 0 {
            assert(acc + empty =~= acc);
        } else {
            assert(acc + empty.push(cur) =~= acc.push(cur));
        }
    } else if is_space(s[i]) {
        if cur.len() == 0 {
            lemma_split_from_acc(s, i + 1, cur, acc);
        } else {
            lemma_split_from_acc(s, i + 1, Seq::empty(), acc.push(cur));
            lemma_split_from_acc(s, i + 1, Seq::empty(), empty.push(cur));
            let rest = split_from(s, i + 1, Seq::empty(), empty);
            assert(acc.push(cur) + rest =~= acc + (empty.push(cur) + rest));
        }
    } else {
        lemma_split_from_acc(s, i + 1, cur.push(s[i]), acc);
    }
}

/// Hexadecimal digits, in either capitalisation.
pub open spec fn is_hex_digit(c: char) -> bool {
    let u = c as u32;
    ||| (0x30 <= u && u <= 0x39)
    ||| (0x41 <= u && u <= 0x46)
    ||| (0x61 <= u && u <= 0x66)
}

/// The numeric value of a hexadecimal digit (zero on other characters).
pub open spec fn hex_digit_val(c: char) -> int {
    let u = c as u32;
    if 0x30 <= u && u <= 0x39 {
        u - 0x30
    } else if 0x41 <= u && u <= 0x46 {
        u - 0x37
    } else if 0x61 <= u && u <= 0x66 {
        u - 0x57
    } else {
        0
    }
}

/// Runtime hexadecimal digit reader: the digit's value, or nothing when `c`
/// is no hexadecimal digit.
pub fn hex_digit_value(c: char) -> (r: Option<u8>)
    ensures
        r == (if is_hex_digit(c) {
            Some(hex_digit_val(c) as u8)
        } else {
            None::<u8>
        }),
{
    let u = c as u32;
    if 0x30 <= u && u <= 0x39 {
        Some((u - 0x30) as u8)
    } else if 0x41 <= u && u <= 0x46 {
        Some((u - 0x37) as u8)
    } else if 0x61 <= u && u <= 0x66 {
        Some((u - 0x57) as u8)
    } else {
        None
    }
}

} // verus!
