//! Reading comma-separated lists of unsigned numbers, as given on the
//! command line for ranges and sizes.
use vstd::prelude::*;

verus! {

/// The text cut at every comma: `"a,b"` gives `"a"` and `"b"`, the empty
/// text gives one empty field.
pub open spec fn split_commas(s: Seq<char>) -> Seq<Seq<char>>
    decreases s.len(),
{
    if s.len() == 0 {
        seq![seq![]]
    } else {
        let fields = split_commas(s.drop_last());
        if s.last() == ',' {
            fields.push(seq![])
        } else {
            fields.update(fields.len() - 1, fields.last().push(s.last()))
        }
    }
}

/// The field list is never empty.
proof fn lemma_split_nonempty(s: Seq<char>)
    ensures
        split_commas(s).len() >= 1,
    decreases s.len(),
{
    if s.len() > 0 {
        lemma_split_nonempty(s.drop_last());
    }
}

/// `c` is a decimal digit.
pub open spec fn is_digit(c: char) -> bool {
    '0' <= c && c <= '9'
}

/// The value of a string of decimal digits.
pub open spec fn digits_value(s: Seq<char>) -> int
    decreases s.len(),
{
    if s.len() == 0 {
        0
    } else {
        digits_value(s.drop_last()) * 10 + (s.last() as int - '0' as int)
    }
}

/// Every character of `s` is a decimal digit.
pub open spec fn all_digits(s: Seq<char>) -> bool {
    forall|i: int| 0 <= i < s.len() ==> is_digit(#[trigger] s[i])
}

/// The digits of a field: all of it but a leading `+`.
pub open spec fn unsigned_digits(field: Seq<char>) -> Seq<char> {
    if field.len() > 0 && field[0] == '+' {
        field.drop_first()
    } else {
        field
    }
}

/// The unsigned number a field denotes, as `usize`'s `FromStr` reads it: an
/// optional `+` followed by at least one decimal digit and nothing else,
/// with a value that fits.
pub open spec fn parse_number(field: Seq<char>) -> Option<usize> {
    let digits = unsigned_digits(field);
    if digits.len() > 0 && all_digits(digits) && digits_value(digits) <= usize::MAX {
        Some(digits_value(digits) as usize)
    } else {
        None
    }
}

proof fn lemma_digits_value_nonneg(s: Seq<char>)
    requires
        forall|i: int| 0 <= i < s.len() ==> is_digit(#[trigger] s[i]),
    ensures
        digits_value(s) >= 0,
    decreases s.len(),
{
    if s.len() > 0 {
        lemma_digits_value_nonneg(s.drop_last());
    }
}

proof fn lemma_digits_value_grows(s: Seq<char>, k: int)
    requires
        0 <= k <= s.len(),
        forall|i: int| 0 <= i < s.len() ==> is_digit(#[trigger] s[i]),
    ensures
        digits_value(s.take(k)) <= digits_value(s),
    decreases s.len() - k,
{
    if k < s.len() {
        lemma_digits_value_grows(s, k + 1);
        assert(s.take(k + 1).drop_last() =~= s.take(k));
        lemma_digits_value_nonneg(s.take(k));
    } else {
        assert(s.take(k) =~= s);
    }
}

/// Reads a field as an unsigned number.
fn parse_field(field: &Vec<char>) -> (r: Option<usize>)
    ensures
        r == parse_number(field@),
{
    let len = field.len();
    let mut start: usize = 0;
    if len > 0 && field[0] == '+' {
        start = 1;
    }
    let ghost digits = unsigned_digits(field@);
    proof {
        assert(digits =~= field@.skip(start as int));
    }
    if start >= len {
        return None;
    }
    let mut value: usize = 0;
    let mut k: usize = start;
    while k < len
        invariant
            start <= k <= len,
            len == field@.len(),
            digits == field@.skip(start as int),
            digits == unsigned_digits(field@),
            forall|i: int| 0 <= i < k - start ==> is_digit(#[trigger] digits[i]),
            value == digits_value(digits.take(k - start)),
        decreases len - k,
    {
        let c = field[k];
        proof {
            assert(digits[k - start] == c);
            assert(digits.take(k - start + 1).drop_last() =~= digits.take(k - start));
        }
        if !('0' <= c && c <= '9') {
            proof {
                assert(!is_digit(digits[k - start]));
                assert(!all_digits(digits));
            }
            return None;
        }
        let d = (c as u32 - '0' as u32) as usize;
        if value > (usize::MAX - d) / 10 {
            proof {
                if all_digits(digits) {
                    lemma_digits_value_grows(digits, k - start + 1);
                    assert(digits_value(digits.take(k - start + 1)) == value * 10 + d) by {
                        assert(digits.take(k - start + 1).last() == c);
                    }
                    assert(value * 10 + d > usize::MAX) by (nonlinear_arith)
                        requires
                            value > (usize::MAX - d) / 10,
                            d <= 9,
                    ;
                }
            }
            return None;
        }
        proof {
            assert(value * 10 + d <= usize::MAX) by (nonlinear_arith)
                requires
                    value <= (usize::MAX - d) / 10,
                    d <= 9,
            ;
            assert(digits.take(k - start + 1).last() == c);
        }
        value = value * 10 + d;
        k = k + 1;
    }
    proof {
        assert(digits.take(k - start) =~= digits);
    }
    Some(value)
}

/// Cuts the text at every comma.
fn split_fields(s: &str) -> (fields: Vec<Vec<char>>)
    ensures
        fields@.len() == split_commas(s@).len(),
        forall|i: int| 0 <= i < fields@.len() ==> (#[trigger] fields@[i])@ == split_commas(s@)[i],
{
    let len = s.unicode_len();
    let mut fields: Vec<Vec<char>> = Vec::new();
    fields.push(Vec::new());
    let mut k: usize = 0;
    proof {
        assert(s@.take(0) =~= Seq::<char>::empty());
    }
    while k < len
        invariant
            len == s@.len(),
            k <= len,
            fields@.len() == split_commas(s@.take(k as int)).len(),
            fields@.len() >= 1,
            forall|i: int|
                0 <= i < fields@.len() ==> (#[trigger] fields@[i])@ == split_commas(
                    s@.take(k as int),
                )[i],
        decreases len - k,
    {
        let c = s.get_char(k);
        proof {
            assert(s@.take(k + 1).drop_last() =~= s@.take(k as int));
            assert(s@.take(k + 1).last() == c);
            lemma_split_nonempty(s@.take(k as int));
        }
        if c == ',' {
            fields.push(Vec::new());
            proof {
                assert(fields@.last()@ =~= Seq::<char>::empty());
            }
        } else {
            let last = fields.len() - 1;
            let mut field = fields.remove(last);
            field.push(c);
            fields.push(field);
            proof {
                let prior = split_commas(s@.take(k as int));
                assert forall|i: int| 0 <= i < fields@.len() implies (#[trigger] fields@[i])@
                    == split_commas(s@.take(k + 1))[i] by {
                    if i < last {
                        assert(fields@[i]@ == prior[i]);
                    }
                }
            }
        }
        k = k + 1;
    }
    proof {
        assert(s@.take(k as int) =~= s@);
    }
    fields
}

/// What `parse_triplet` returns: the three numbers, or the message that
/// says what went wrong first.
pub open spec fn triplet_result(s: Seq<char>) -> Result<(usize, usize, usize), Seq<char>> {
    let parts = split_commas(s);
    if parts.len() != 3 {
        Err("Triplet must contain exactly three values"@)
    } else if parse_number(parts[0]) is None {
        Err("Failed to parse first number"@)
    } else if parse_number(parts[1]) is None {
        Err("Failed to parse second number"@)
    } else if parse_number(parts[2]) is None {
        Err("Failed to parse third number"@)
    } else {
        Ok((
            parse_number(parts[0]).unwrap(),
            parse_number(parts[1]).unwrap(),
            parse_number(parts[2]).unwrap(),
        ))
    }
}

/// What `parse_tuple` returns: the two numbers, or the message that says
/// what went wrong first.
pub open spec fn tuple_result(s: Seq<char>) -> Result<(usize, usize), Seq<char>> {
    let parts = split_commas(s);
    if parts.len() != 2 {
        Err("Tuple must contain exactly two values"@)
    } else if parse_number(parts[0]) is None {
        Err("Failed to parse first number"@)
    } else if parse_number(parts[1]) is None {
        Err("Failed to parse second number"@)
    } else {
        Ok((parse_number(parts[0]).unwrap(), parse_number(parts[1]).unwrap()))
    }
}

/// Reads three comma-separated unsigned numbers, such as `3,8,1`.
pub fn parse_triplet(s: &str) -> (r: Result<(usize, usize, usize), String>)
    ensures
        match (r, triplet_result(s@)) {
            (Ok(v), Ok(w)) => v == w,
            (Err(msg), Err(m)) => msg@ == m,
            _ => false,
        },
{
    let parts = split_fields(s);
    if parts.len() != 3 {
        return Err(String::from_str("Triplet must contain exactly three values"));
    }
    let first = match parse_field(&parts[0]) {
        Some(v) => v,
        None => {
            return Err(String::from_str("Failed to parse first number"));
        },
    };
    let second = match parse_field(&parts[1]) {
        Some(v) => v,
        None => {
            return Err(String::from_str("Failed to parse second number"));
        },
    };
    let third = match parse_field(&parts[2]) {
        Some(v) => v,
        None => {
            return Err(String::from_str("Failed to parse third number"));
        },
    };
    Ok((first, second, third))
}

/// Reads two comma-separated unsigned numbers, such as `15,40`.
pub fn parse_tuple(s: &str) -> (r: Result<(usize, usize), String>)
    ensures
        match (r, tuple_result(s@)) {
            (Ok(v), Ok(w)) => v == w,
            (Err(msg), Err(m)) => msg@ == m,
            _ => false,
        },
{
    let parts = split_fields(s);
    if parts.len() != 2 {
        return Err(String::from_str("Tuple must contain exactly two values"));
    }
    let first = match parse_field(&parts[0]) {
        Some(v) => v,
        None => {
            return Err(String::from_str("Failed to parse first number"));
        },
    };
    let second = match parse_field(&parts[1]) {
        Some(v) => v,
        None => {
            return Err(String::from_str("Failed to parse second number"));
        },
    };
    Ok((first, second))
}

} // verus!
