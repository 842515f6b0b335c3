use vstd::prelude::*;

verus! {

/// The characters of `s`, in order.
pub fn str_chars(s: &str) -> (res: Vec<char>)
    ensures
        res@ == s@,
{
    let mut res: Vec<char> = Vec::new();
    for c in it: s.chars()
        invariant
            res@ == it.seq().take(it.index() as int),
    {
        res.push(c);
    }
    res
}

/// Characters with the Unicode `White_Space` property (what `char::is_whitespace`
/// and the `\s` class of a regular expression accept).
pub open spec fn is_white_space(c: char) -> bool {
    ||| ('\u{9}' <= c && c <= '\u{d}')
    ||| c == ' '
    ||| c == '\u{85}'
    ||| c == '\u{a0}'
    ||| c == '\u{1680}'
    ||| ('\u{2000}' <= c && c <= '\u{200a}')
    ||| c == '\u{2028}'
    ||| c == '\u{2029}'
    ||| c == '\u{202f}'
    ||| c == '\u{205f}'
    ||| c == '\u{3000}'
}

/// Whether `c` is white space (see `is_white_space`).
pub fn is_whitespace(c: char) -> (res: bool)
    ensures
        res == is_white_space(c),
{
    ('\u{9}' <= c && c <= '\u{d}') || c == ' ' || c == '\u{85}' || c == '\u{a0}' || c
        == '\u{1680}' || ('\u{2000}' <= c && c <= '\u{200a}') || c == '\u{2028}' || c
        == '\u{2029}' || c == '\u{202f}' || c == '\u{205f}' || c == '\u{3000}'
}

/// Characters of the Unicode general category `Nd` (decimal digits, Unicode 15.0), what
/// the `\d` class of a regular expression accepts.
pub open spec fn is_decimal_digit(c: char) -> bool {
    ||| ('\u{30}' <= c && c <= '\u{39}')
    ||| ('\u{660}' <= c && c <= '\u{669}')
    ||| ('\u{6f0}' <= c && c <= '\u{6f9}')
    ||| ('\u{7c0}' <= c && c <= '\u{7c9}')
    ||| ('\u{966}' <= c && c <= '\u{96f}')
    ||| ('\u{9e6}' <= c && c <= '\u{9ef}')
    ||| ('\u{a66}' <= c && c <= '\u{a6f}')
    ||| ('\u{ae6}' <= c && c <= '\u{aef}')
    ||| ('\u{b66}' <= c && c <= '\u{b6f}')
    ||| ('\u{be6}' <= c && c <= '\u{bef}')
    ||| ('\u{c66}' <= c && c <= '\u{c6f}')
    ||| ('\u{ce6}' <= c && c <= '\u{cef}')
    ||| ('\u{d66}' <= c && c <= '\u{d6f}')
    ||| ('\u{de6}' <= c && c <= '\u{def}')
    ||| ('\u{e50}' <= c && c <= '\u{e59}')
    ||| ('\u{ed0}' <= c && c <= '\u{ed9}')
    ||| ('\u{f20}' <= c && c <= '\u{f29}')
    ||| ('\u{1040}' <= c && c <= '\u{1049}')
    ||| ('\u{1090}' <= c && c <= '\u{1099}')
    ||| ('\u{17e0}' <= c && c <= '\u{17e9}')
    ||| ('\u{1810}' <= c && c <= '\u{1819}')
    ||| ('\u{1946}' <= c && c <= '\u{194f}')
    ||| ('\u{19d0}' <= c && c <= '\u{19d9}')
    ||| ('\u{1a80}' <= c && c <= '\u{1a89}')
    ||| ('\u{1a90}' <= c && c <= '\u{1a99}')
    ||| ('\u{1b50}' <= c && c <= '\u{1b59}')
    ||| ('\u{1bb0}' <= c && c <= '\u{1bb9}')
    ||| ('\u{1c40}' <= c && c <= '\u{1c49}')
    ||| ('\u{1c50}' <= c && c <= '\u{1c59}')
    ||| ('\u{a620}' <= c && c <= '\u{a629}')
    ||| ('\u{a8d0}' <= c && c <= '\u{a8d9}')
    ||| ('\u{a900}' <= c && c <= '\u{a909}')
    ||| ('\u{a9d0}' <= c && c <= '\u{a9d9}')
    ||| ('\u{a9f0}' <= c && c <= '\u{a9f9}')
    ||| ('\u{aa50}' <= c && c <= '\u{aa59}')
    ||| ('\u{abf0}' <= c && c <= '\u{abf9}')
    ||| ('\u{ff10}' <= c && c <= '\u{ff19}')
    ||| ('\u{104a0}' <= c && c <= '\u{104a9}')
    ||| ('\u{10d30}' <= c && c <= '\u{10d39}')
    ||| ('\u{11066}' <= c && c <= '\u{1106f}')
    ||| ('\u{110f0}' <= c && c <= '\u{110f9}')
    ||| ('\u{11136}' <= c && c <= '\u{1113f}')
    ||| ('\u{111d0}' <= c && c <= '\u{111d9}')
    ||| ('\u{112f0}' <= c && c <= '\u{112f9}')
    ||| ('\u{11450}' <= c && c <= '\u{11459}')
    ||| ('\u{114d0}' <= c && c <= '\u{114d9}')
    ||| ('\u{11650}' <= c && c <= '\u{11659}')
    ||| ('\u{116c0}' <= c && c <= '\u{116c9}')
    ||| ('\u{11730}' <= c && c <= '\u{11739}')
    ||| ('\u{118e0}' <= c && c <= '\u{118e9}')
    ||| ('\u{11950}' <= c && c <= '\u{11959}')
    ||| ('\u{11c50}' <= c && c <= '\u{11c59}')
    ||| ('\u{11d50}' <= c && c <= '\u{11d59}')
    ||| ('\u{11da0}' <= c && c <= '\u{11da9}')
    ||| ('\u{11f50}' <= c && c <= '\u{11f59}')
    ||| ('\u{16a60}' <= c && c <= '\u{16a69}')
    ||| ('\u{16ac0}' <= c && c <= '\u{16ac9}')
    ||| ('\u{16b50}' <= c && c <= '\u{16b59}')
    ||| ('\u{1d7ce}' <= c && c <= '\u{1d7ff}')
    ||| ('\u{1e140}' <= c && c <= '\u{1e149}')
    ||| ('\u{1e2f0}' <= c && c <= '\u{1e2f9}')
    ||| ('\u{1e4f0}' <= c && c <= '\u{1e4f9}')
    ||| ('\u{1e950}' <= c && c <= '\u{1e959}')
    ||| ('\u{1fbf0}' <= c && c <= '\u{1fbf9}')
}

/// Whether `c` is a decimal digit of any script (see `is_decimal_digit`).
pub fn is_decimal_digit_char(c: char) -> (res: bool)
    ensures
        res == is_decimal_digit(c),
{
    ('\u{30}' <= c && c <= '\u{39}') || ('\u{660}' <= c && c <= '\u{669}') || ('\u{6f0}' <= c && c <= '\u{6f9}') || ('\u{7c0}' <= c && c <= '\u{7c9}') || ('\u{966}' <= c && c <= '\u{96f}') || ('\u{9e6}' <= c && c <= '\u{9ef}') || ('\u{a66}' <= c && c <= '\u{a6f}') || ('\u{ae6}' <= c && c <= '\u{aef}') || ('\u{b66}' <= c && c <= '\u{b6f}') || ('\u{be6}' <= c && c <= '\u{bef}') || ('\u{c66}' <= c && c <= '\u{c6f}') || ('\u{ce6}' <= c && c <= '\u{cef}') || ('\u{d66}' <= c && c <= '\u{d6f}') || ('\u{de6}' <= c && c <= '\u{def}') || ('\u{e50}' <= c && c <= '\u{e59}') || ('\u{ed0}' <= c && c <= '\u{ed9}') || ('\u{f20}' <= c && c <= '\u{f29}') || ('\u{1040}' <= c && c <= '\u{1049}') || ('\u{1090}' <= c && c <= '\u{1099}') || ('\u{17e0}' <= c && c <= '\u{17e9}') || ('\u{1810}' <= c && c <= '\u{1819}') || ('\u{1946}' <= c && c <= '\u{194f}') || ('\u{19d0}' <= c && c <= '\u{19d9}') || ('\u{1a80}' <= c && c <= '\u{1a89}') || ('\u{1a90}' <= c && c <= '\u{1a99}') || ('\u{1b50}' <= c && c <= '\u{1b59}') || ('\u{1bb0}' <= c && c <= '\u{1bb9}') || ('\u{1c40}' <= c && c <= '\u{1c49}') || ('\u{1c50}' <= c && c <= '\u{1c59}') || ('\u{a620}' <= c && c <= '\u{a629}') || ('\u{a8d0}' <= c && c <= '\u{a8d9}') || ('\u{a900}' <= c && c <= '\u{a909}') || ('\u{a9d0}' <= c && c <= '\u{a9d9}') || ('\u{a9f0}' <= c && c <= '\u{a9f9}') || ('\u{aa50}' <= c && c <= '\u{aa59}') || ('\u{abf0}' <= c && c <= '\u{abf9}') || ('\u{ff10}' <= c && c <= '\u{ff19}') || ('\u{104a0}' <= c && c <= '\u{104a9}') || ('\u{10d30}' <= c && c <= '\u{10d39}') || ('\u{11066}' <= c && c <= '\u{1106f}') || ('\u{110f0}' <= c && c <= '\u{110f9}') || ('\u{11136}' <= c && c <= '\u{1113f}') || ('\u{111d0}' <= c && c <= '\u{111d9}') || ('\u{112f0}' <= c && c <= '\u{112f9}') || ('\u{11450}' <= c && c <= '\u{11459}') || ('\u{114d0}' <= c && c <= '\u{114d9}') || ('\u{11650}' <= c && c <= '\u{11659}') || ('\u{116c0}' <= c && c <= '\u{116c9}') || ('\u{11730}' <= c && c <= '\u{11739}') || ('\u{118e0}' <= c && c <= '\u{118e9}') || ('\u{11950}' <= c && c <= '\u{11959}') || ('\u{11c50}' <= c && c <= '\u{11c59}') || ('\u{11d50}' <= c && c <= '\u{11d59}') || ('\u{11da0}' <= c && c <= '\u{11da9}') || ('\u{11f50}' <= c && c <= '\u{11f59}') || ('\u{16a60}' <= c && c <= '\u{16a69}') || ('\u{16ac0}' <= c && c <= '\u{16ac9}') || ('\u{16b50}' <= c && c <= '\u{16b59}') || ('\u{1d7ce}' <= c && c <= '\u{1d7ff}') || ('\u{1e140}' <= c && c <= '\u{1e149}') || ('\u{1e2f0}' <= c && c <= '\u{1e2f9}') || ('\u{1e4f0}' <= c && c <= '\u{1e4f9}') || ('\u{1e950}' <= c && c <= '\u{1e959}') || ('\u{1fbf0}' <= c && c <= '\u{1fbf9}')
}

/// Whether `c` is one of the digits 0 to 9.
pub open spec fn is_ascii_digit(c: char) -> bool {
    '0' <= c && c <= '9'
}

/// `s` without its leading white space.
pub open spec fn trim_start(s: Seq<char>) -> Seq<char>
    decreases s.len(),
{
    if s.len() > 0 && is_white_space(s[0]) {
        trim_start(s.drop_first())
    } else {
        s
    }
}

/// `s` without its trailing white space.
pub open spec fn trim_end(s: Seq<char>) -> Seq<char>
    decreases s.len(),
{
    if s.len() > 0 && is_white_space(s.last()) {
        trim_end(s.drop_last())
    } else {
        s
    }
}

/// `s` without leading and trailing white space, as `str::trim` gives it.
pub open spec fn trim(s: Seq<char>) -> Seq<char> {
    trim_end(trim_start(s))
}

/// The index of the first `sep` at or after `start`, or the length of `s`.
pub open spec fn field_end(s: Seq<char>, sep: char, start: int) -> int
    decreases s.len() - start,
{
    if start >= s.len() {
        s.len() as int
    } else if s[start] == sep {
        start
    } else {
        field_end(s, sep, start + 1)
    }
}

/// The end of a field lies between its start and the end of the text.
pub proof fn lemma_field_end_bounds(s: Seq<char>, sep: char, start: int)
    requires
        0 <= start <= s.len(),
    ensures
        start <= field_end(s, sep, start) <= s.len(),
        field_end(s, sep, start) < s.len() ==> s[field_end(s, sep, start)] == sep,
        forall|i: int| start <= i < field_end(s, sep, start) ==> s[i] != sep,
    decreases s.len() - start,
{
    if start < s.len() && s[start] != sep {
        lemma_field_end_bounds(s, sep, start + 1);
    }
}

/// The pieces of `s` from `start` on, separated by `sep`, as `str::split` yields them.
pub open spec fn split_from(s: Seq<char>, sep: char, start: int) -> Seq<Seq<char>>
    decreases s.len() - start,
{
    if start < 0 || start > s.len() {
        Seq::empty()
    } else {
        let end = field_end(s, sep, start);
        proof {
            lemma_field_end_bounds(s, sep, start);
        }
        if end < s.len() {
            seq![s.subrange(start, end)] + split_from(s, sep, end + 1)
        } else {
            seq![s.subrange(start, s.len() as int)]
        }
    }
}

/// The pieces of `s` separated by `sep`, as `str::split` yields them.
pub open spec fn split(s: Seq<char>, sep: char) -> Seq<Seq<char>> {
    split_from(s, sep, 0)
}

/// The pieces that a split iterator positioned at `cursor` has still to yield.
pub open spec fn remaining_fields(s: Seq<char>, sep: char, cursor: Option<usize>) -> Seq<
    Seq<char>,
> {
    match cursor {
        None => Seq::empty(),
        Some(start) => split_from(s, sep, start as int),
    }
}

/// Yields the next piece of a split of `chars` by `sep`, as a range of indices.
pub fn next_field(chars: &Vec<char>, sep: char, cursor: &mut Option<usize>) -> (res: Option<
    (usize, usize),
>)
    requires
        *old(cursor) matches Some(start) ==> start <= chars@.len(),
    ensures
        *final(cursor) matches Some(start) ==> start <= chars@.len(),
        match res {
            None => *old(cursor) is None && *final(cursor) is None,
            Some((a, b)) => {
                &&& a <= b <= chars@.len()
                &&& remaining_fields(chars@, sep, *old(cursor)) == seq![chars@.subrange(a as int, b as int)]
                    + remaining_fields(chars@, sep, *final(cursor))
            },
        },
{
    match *cursor {
        None => None,
        Some(start) => {
            let n = chars.len();
            let mut end = start;
            while end < n && chars[end] != sep
                invariant
                    start <= end <= n,
                    n == chars@.len(),
                    field_end(chars@, sep, start as int) == field_end(chars@, sep, end as int),
                decreases n - end,
            {
                end = end + 1;
            }
            proof {
                lemma_field_end_bounds(chars@, sep, start as int);
            }
            if end < n {
                *cursor = Some(end + 1);
            } else {
                *cursor = None;
            }
            Some((start, end))
        },
    }
}

/// Skipping leading white space from `a` to `b` trims the same.
proof fn lemma_trim_start_skip(s: Seq<char>, a: int, b: int)
    requires
        0 <= a < b <= s.len(),
        is_white_space(s[a]),
    ensures
        trim_start(s.subrange(a, b)) == trim_start(s.subrange(a + 1, b)),
{
    assert(s.subrange(a, b).drop_first() == s.subrange(a + 1, b));
}

/// Dropping trailing white space from `b` down to `a` trims the same.
proof fn lemma_trim_end_skip(s: Seq<char>, a: int, b: int)
    requires
        0 <= a < b <= s.len(),
        is_white_space(s[b - 1]),
    ensures
        trim_end(s.subrange(a, b)) == trim_end(s.subrange(a, b - 1)),
{
    assert(s.subrange(a, b).drop_last() == s.subrange(a, b - 1));
}

/// The range of `chars[from..to]` that remains after trimming white space at both ends.
pub fn trim_range(chars: &Vec<char>, from: usize, to: usize) -> (res: (usize, usize))
    requires
        from <= to <= chars@.len(),
    ensures
        from <= res.0 <= res.1 <= to,
        chars@.subrange(res.0 as int, res.1 as int) == trim(chars@.subrange(from as int, to as int)),
{
    let mut a = from;
    while a < to && is_whitespace(chars[a])
        invariant
            from <= a <= to,
            to <= chars@.len(),
            trim_start(chars@.subrange(from as int, to as int)) == trim_start(
                chars@.subrange(a as int, to as int),
            ),
        decreases to - a,
    {
        proof {
            lemma_trim_start_skip(chars@, a as int, to as int);
        }
        a = a + 1;
    }
    let ghost started = chars@.subrange(a as int, to as int);
    assert(trim_start(started) == started);
    let mut b = to;
    while b > a && is_whitespace(chars[b - 1])
        invariant
            a <= b <= to,
            to <= chars@.len(),
            trim_end(started) == trim_end(chars@.subrange(a as int, b as int)),
            started == chars@.subrange(a as int, to as int),
        decreases b,
    {
        proof {
            lemma_trim_end_skip(chars@, a as int, b as int);
        }
        b = b - 1;
    }
    (a, b)
}

/// `s` without leading and trailing white space.
pub fn trim_str<'a>(s: &'a str) -> (res: &'a str)
    ensures
        res@ == trim(s@),
{
    let chars = str_chars(s);
    let (a, b) = trim_range(&chars, 0, chars.len());
    assert(chars@.subrange(0, chars@.len() as int) == s@);
    s.substring_char(a, b)
}

} // verus!
