use vstd::prelude::*;

verus! {

/// The decimal digit `d` as a character.
pub open spec fn digit_char(d: int) -> char {
    if d == 0 {
        '0'
    } else if d == 1 {
        '1'
    } else if d == 2 {
        '2'
    } else if d == 3 {
        '3'
    } else if d == 4 {
        '4'
    } else if d == 5 {
        '5'
    } else if d == 6 {
        '6'
    } else if d == 7 {
        '7'
    } else if d == 8 {
        '8'
    } else {
        '9'
    }
}

/// The decimal digits of `n`, without leading zeros.
pub open spec fn decimal(n: nat) -> Seq<char>
    decreases n,
{
    if n < 10 {
        seq![digit_char(n as int)]
    } else {
        decimal(n / 10).push(digit_char((n % 10) as int))
    }
}

/// The last three decimal digits of `n`, with leading zeros.
pub open spec fn three_digits(n: nat) -> Seq<char> {
    seq![
        digit_char(((n / 100) % 10) as int),
        digit_char(((n / 10) % 10) as int),
        digit_char((n % 10) as int),
    ]
}

/// The decimal digits of `n` in groups of three, separated by `'`: "12'345'678".
pub open spec fn grouped(n: nat) -> Seq<char>
    decreases n,
{
    if n < 1000 {
        decimal(n)
    } else {
        grouped(n / 1000) + seq!['\''] + three_digits(n % 1000)
    }
}

/// `s` with a leading minus sign where `is_negative` holds.
pub open spec fn signed(s: Seq<char>, is_negative: bool) -> Seq<char> {
    if is_negative {
        seq!['-'] + s
    } else {
        s
    }
}

/// A number shown with its integer part in groups of three and its fraction: the
/// fraction's text ("0.57") without its first character.
pub open spec fn spec_format_parts(is_negative: bool, integer: nat, fraction: Option<Seq<char>>) -> Seq<char> {
    match fraction {
        None => signed(grouped(integer), is_negative),
        Some(f) => signed(grouped(integer) + f.drop_first(), is_negative),
    }
}

/// Whether a character is not the group separator.
pub open spec fn not_separator() -> spec_fn(char) -> bool {
    |c: char| c != '\''
}

/// The digits of a number of at least a thousand are those of its thousands followed by
/// its last three digits.
proof fn lemma_decimal_split(n: nat)
    requires
        n >= 1000,
    ensures
        decimal(n) == decimal(n / 1000) + three_digits(n % 1000),
{
    let n1 = n / 10;
    let n2 = n / 100;
    assert(n1 / 10 == n2) by (nonlinear_arith)
        requires
            n1 == n / 10,
            n2 == n / 100,
    ;
    assert(n2 / 10 == n / 1000) by (nonlinear_arith)
        requires
            n2 == n / 100,
    ;
    assert((n % 1000) / 100 % 10 == n2 % 10 && (n % 1000) / 10 % 10 == n1 % 10 && n % 1000 % 10
        == n % 10) by (nonlinear_arith)
        requires
            n1 == n / 10,
            n2 == n / 100,
    ;
    assert(n1 >= 100 && n2 >= 10);
    assert(decimal(n) == decimal(n1).push(digit_char((n % 10) as int)));
    assert(decimal(n1) == decimal(n1 / 10).push(digit_char((n1 % 10) as int)));
    assert(decimal(n2) == decimal(n2 / 10).push(digit_char((n2 % 10) as int)));
}

/// Grouping only inserts separators: without them, a grouped number is its decimal
/// digits.
pub proof fn law_grouping_keeps_digits(n: nat)
    ensures
        grouped(n).filter(not_separator()) == decimal(n),
    decreases n,
{
    let p = not_separator();
    if n < 1000 {
        lemma_decimal_has_no_separator(n);
    } else {
        law_grouping_keeps_digits(n / 1000);
        lemma_decimal_split(n);
        let a = grouped(n / 1000);
        let t = three_digits(n % 1000);
        Seq::filter_distributes_over_add(a + seq!['\''], t, p);
        Seq::filter_distributes_over_add(a, seq!['\''], p);
        reveal_with_fuel(Seq::filter, 4);
        assert(seq!['\''].filter(p) == Seq::<char>::empty());
        assert(t.filter(p) == t) by {
            assert(t == seq![t[0], t[1], t[2]]);
            assert(t.drop_last().drop_last().drop_last() == Seq::<char>::empty());
        }
    }
}

/// Decimal digits hold no separator.
proof fn lemma_decimal_has_no_separator(n: nat)
    ensures
        decimal(n).filter(not_separator()) == decimal(n),
    decreases n,
{
    reveal_with_fuel(Seq::filter, 2);
    if n >= 10 {
        lemma_decimal_has_no_separator(n / 10);
        decimal(n / 10).lemma_filter_push(digit_char((n % 10) as int), not_separator());
    } else {
        assert(decimal(n).drop_last() == Seq::<char>::empty());
    }
}

/// Appends `c` to `s`: `String::push`.
#[verifier::external_body]
fn push_char(s: &mut String, c: char)
    ensures
        final(s)@ == old(s)@.push(c),
{
    s.push(c);
}

/// The digit `d` (below ten) as a character.
fn to_digit_char(d: u64) -> (res: char)
    requires
        d < 10,
    ensures
        res == digit_char(d as int),
{
    match d {
        0 => '0',
        1 => '1',
        2 => '2',
        3 => '3',
        4 => '4',
        5 => '5',
        6 => '6',
        7 => '7',
        8 => '8',
        _ => '9',
    }
}

/// Formats numbers for display with their thousands separated by `'`.
pub struct NumberFormatter {
    buffer: String,
}

impl NumberFormatter {
    /// The text that the formatter works on.
    pub closed spec fn scratch(&self) -> Seq<char> {
        self.buffer@
    }

    /// A formatter with an empty scratch text.
    pub fn new() -> (res: Self)
        ensures
            res.scratch() == Seq::<char>::empty(),
    {
        NumberFormatter { buffer: String::new() }
    }

    /// Appends the digits of `n` (below a thousand) without leading zeros.
    fn push_small(&mut self, n: u64)
        requires
            n < 1000,
        ensures
            final(self).buffer@ == old(self).buffer@ + decimal(n as nat),
    {
        proof {
            reveal_with_fuel(decimal, 3);
        }
        if n >= 100 {
            push_char(&mut self.buffer, to_digit_char(n / 100));
            assert(decimal(n as nat) == decimal((n / 10) as nat).push(digit_char((n % 10) as int)));
            assert(decimal((n / 10) as nat) == decimal((n / 100) as nat).push(digit_char(((n / 10) % 10) as int)));
        }
        if n >= 10 {
            push_char(&mut self.buffer, to_digit_char((n / 10) % 10));
        }
        push_char(&mut self.buffer, to_digit_char(n % 10));
    }

    /// Appends `n` in groups of three digits.
    fn push_grouped(&mut self, n: u64)
        ensures
            final(self).buffer@ == old(self).buffer@ + grouped(n as nat),
        decreases n,
    {
        if n < 1000 {
            self.push_small(n);
        } else {
            self.push_grouped(n / 1000);
            push_char(&mut self.buffer, '\'');
            let rest = n % 1000;
            push_char(&mut self.buffer, to_digit_char(rest / 100));
            push_char(&mut self.buffer, to_digit_char((rest / 10) % 10));
            push_char(&mut self.buffer, to_digit_char(rest % 10));
            assert(three_digits(n as nat % 1000) == seq![
                digit_char((rest / 100) as int),
                digit_char(((rest / 10) % 10) as int),
                digit_char((rest % 10) as int),
            ]);
        }
    }

    /// Shows a number from its sign, its integer part and, where it has one, the text
    /// of its fraction ("0.57" for two places): "-12'345.57". The fraction's text
    /// loses its first character.
    pub fn format_parts(&mut self, is_negative: bool, integer: u64, fraction: Option<&str>) -> (res: String)
        requires
            fraction matches Some(f) ==> f@.len() > 0,
        ensures
            res@ == spec_format_parts(is_negative, integer as nat, match fraction {
                Some(f) => Some(f@),
                None => None,
            }),
    {
        self.buffer = String::new();
        self.push_grouped(integer);
        if let Some(f) = fraction {
            let chars = crate::text::str_chars(f);
            let mut i: usize = 1;
            let ghost start = self.buffer@;
            while i < chars.len()
                invariant
                    1 <= i <= chars@.len(),
                    chars@ == f@,
                    self.buffer@ == start + f@.subrange(1, i as int),
                decreases chars@.len() - i,
            {
                push_char(&mut self.buffer, chars[i]);
                assert(f@.subrange(1, i + 1) == f@.subrange(1, i as int).push(f@[i as int]));
                i = i + 1;
            }
            assert(f@.subrange(1, f@.len() as int) == f@.drop_first());
        }
        let result = self.buffer.clone();
        Self::add_sign(result, is_negative)
    }

    /// `result` with a leading minus sign where `is_negative` holds.
    fn add_sign(result: String, is_negative: bool) -> (res: String)
        ensures
            res@ == signed(result@, is_negative),
    {
        if is_negative {
            let mut signed_result = String::new();
            push_char(&mut signed_result, '-');
            signed_result.append(result.as_str());
            assert(Seq::<char>::empty().push('-') == seq!['-']);
            signed_result
        } else {
            result
        }
    }
}

} // verus!
