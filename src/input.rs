use vstd::prelude::*;

verus! {

/// The characters with the Unicode property White_Space.
pub open spec fn is_white_space(c: char) -> bool {
    let u = c as u32;
    ||| 0x9 <= u <= 0xD
    ||| u == 0x20
    ||| u == 0x85
    ||| u == 0xA0
    ||| u == 0x1680
    ||| 0x2000 <= u <= 0x200A
    ||| u == 0x2028
    ||| u == 0x2029
    ||| u == 0x202F
    ||| u == 0x205F
    ||| u == 0x3000
}

/// The text without its leading whitespace.
pub open spec fn trim_start_of(s: Seq<char>) -> Seq<char>
    decreases s.len(),
{
    if s.len() > 0 && is_white_space(s[0]) {
        trim_start_of(s.drop_first())
    } else {
        s
    }
}

/// The text without its trailing whitespace.
pub open spec fn trim_end_of(s: Seq<char>) -> Seq<char>
    decreases s.len(),
{
    if s.len() > 0 && is_white_space(s.last()) {
        trim_end_of(s.drop_last())
    } else {
        s
    }
}

/// The text with its leading and trailing whitespace removed.
pub open spec fn trimmed(s: Seq<char>) -> Seq<char> {
    trim_end_of(trim_start_of(s))
}

/// Relies on `str::trim`: the slice without leading and trailing characters that have the
/// Unicode property White_Space.
#[verifier::external_body]
fn trim_line(line: &str) -> (r: &str)
    ensures
        r@ == trimmed(line@),
{
    line.trim()
}

pub open spec fn is_digit(c: char) -> bool {
    '0' <= c <= '9'
}

pub open spec fn digit_value(c: char) -> int {
    (c as u32) as int - ('0' as u32) as int
}

/// A nonempty run of decimal digits.
pub open spec fn all_digits(d: Seq<char>) -> bool {
    d.len() > 0 && forall|i: int| 0 <= i < d.len() ==> is_digit(#[trigger] d[i])
}

/// The number that a run of decimal digits writes.
pub open spec fn digits_value(d: Seq<char>) -> int
    decreases d.len(),
{
    if d.len() == 0 {
        0
    } else {
        digits_value(d.drop_last()) * 10 + digit_value(d.last())
    }
}

/// The signed 8-bit number that `s` writes in decimal, with an optional `+` or `-` in front,
/// or `None` when `s` is not such a numeral or its value does not fit.
pub open spec fn decimal_i8(s: Seq<char>) -> Option<i8> {
    if s.len() > 0 && (s[0] == '-' || s[0] == '+') {
        let d = s.drop_first();
        let v = if s[0] == '-' {
            -digits_value(d)
        } else {
            digits_value(d)
        };
        if all_digits(d) && -128 <= v <= 127 {
            Some(v as i8)
        } else {
            None
        }
    } else if all_digits(s) && digits_value(s) <= 127 {
        Some(digits_value(s) as i8)
    } else {
        None
    }
}

/// The value a line of input stores in a cell: its number, or zero when it writes none
/// that fits.
pub open spec fn cell_value(s: Seq<char>) -> i8 {
    match decimal_i8(s) {
        Some(v) => v,
        None => 0,
    }
}

proof fn lemma_digits_value_nonneg(d: Seq<char>)
    requires
        forall|i: int| 0 <= i < d.len() ==> is_digit(#[trigger] d[i]),
    ensures
        digits_value(d) >= 0,
    decreases d.len(),
{
    if d.len() > 0 {
        assert(is_digit(d[d.len() - 1]));
        lemma_digits_value_nonneg(d.drop_last());
    }
}

/// Reads `text` as a signed decimal cell value; anything else gives zero.
pub fn parse_cell(text: &str) -> (r: i8)
    ensures
        r == cell_value(text@),
{
    let ghost s = text@;
    let mut negative: bool = false;
    let mut start: usize = 0;
    let mut ok: bool = true;
    // the value of the digits so far, held at 129 once it is past any cell value
    let mut value: u32 = 0;
    let mut first: bool = true;
    let mut any_digit: bool = false;
    for c in it: text.chars()
        invariant
            it.seq() == s,
            start <= 1,
            it.index() > 0 ==> (start == 1 <==> (s[0] == '-' || s[0] == '+')),
            it.index() > 0 ==> (negative <==> s[0] == '-'),
            it.index() == 0 ==> !negative,
            first <==> it.index() == 0,
            any_digit <==> it.index() > start,
            it.index() == 0 ==> (start == 0 && ok && value == 0),
            it.index() > 0 ==> start <= it.index(),
            ok <==> forall|i: int| start <= i < it.index() ==> is_digit(#[trigger] s[i]),
            ok ==> value <= 129,
            ok ==> value == if digits_value(s.subrange(start as int, it.index() as int)) > 129 {
                129
            } else {
                digits_value(s.subrange(start as int, it.index() as int))
            },
    {
        let ghost i = it.index() as int;
        assert(c == s[i]);
        if first && (c == '-' || c == '+') {
            start = 1;
            negative = c == '-';
            assert(s.subrange(1, 1) =~= Seq::<char>::empty());
        } else if ok && '0' <= c && c <= '9' {
            let ghost d = s.subrange(start as int, i);
            assert(s.subrange(start as int, i + 1).drop_last() =~= d);
            proof {
                lemma_digits_value_nonneg(d);
            }
            let digit: u32 = c as u32 - '0' as u32;
            value = if value * 10 + digit > 129 {
                129
            } else {
                value * 10 + digit
            };
            any_digit = true;
        } else {
            ok = false;
            any_digit = true;
        }
        first = false;
    }
    let ghost d = s.subrange(start as int, s.len() as int);
    assert(start == 1 ==> d =~= s.drop_first());
    assert(start == 0 ==> d =~= s);
    assert(ok <==> forall|i: int| 0 <= i < d.len() ==> is_digit(#[trigger] d[i])) by {
        if !ok {
            let i = choose|i: int| start <= i < s.len() && !is_digit(#[trigger] s[i]);
            assert(!is_digit(d[i - start]));
        } else {
            assert forall|i: int| 0 <= i < d.len() implies is_digit(#[trigger] d[i]) by {
                assert(d[i] == s[i + start]);
            }
        }
    }
    assert(any_digit <==> d.len() > 0);
    if ok {
        proof {
            lemma_digits_value_nonneg(d);
        }
    }
    if !ok || !any_digit || (negative && value > 128) || (!negative && value > 127) {
        0
    } else if negative {
        -(value as i16) as i8
    } else {
        value as i8
    }
}

/// The value that a line of input stores in a cell: the line is trimmed of whitespace,
/// then read as by `parse_cell`.
pub fn cell_from_line(line: &str) -> (r: i8)
    ensures
        r == cell_value(trimmed(line@)),
{
    let t = trim_line(line);
    parse_cell(t)
}

} // verus!
