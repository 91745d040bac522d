//! Reading a number written in decimal, with `_` allowed as a separator.

use vstd::prelude::*;
use vstd::string::StringExecFns;

verus! {

/// `s` with every `_` left out.
pub open spec fn strip_underscores(s: Seq<char>) -> Seq<char>
    decreases s.len(),
{
    if s.len() == 0 {
        s
    } else if s.last() == '_' {
        strip_underscores(s.drop_last())
    } else {
        strip_underscores(s.drop_last()).push(s.last())
    }
}

/// The text after an optional leading `+`.
pub open spec fn unsigned_part(t: Seq<char>) -> Seq<char> {
    if t.len() > 0 && t[0] == '+' {
        t.drop_first()
    } else {
        t
    }
}

pub open spec fn is_digit(c: char) -> bool {
    '0' <= c <= '9'
}

/// The value of a sequence of decimal digits.
pub open spec fn decimal_value(d: Seq<char>) -> int
    decreases d.len(),
{
    if d.len() == 0 {
        0
    } else {
        decimal_value(d.drop_last()) * 10 + (d.last() as int - '0' as int)
    }
}

/// The number that `s` writes: once underscores are left out, an optional
/// `+` and at least one decimal digit, with a value that fits in `u128`.
pub open spec fn parsed_value(s: Seq<char>) -> Option<int> {
    let d = unsigned_part(strip_underscores(s));
    if d.len() > 0 && (forall|i: int| 0 <= i < d.len() ==> #[trigger] is_digit(d[i]))
        && decimal_value(d) <= u128::MAX {
        Some(decimal_value(d))
    } else {
        None
    }
}

/// The message for text that is not a number.
pub open spec fn not_a_number_message(s: Seq<char>) -> Seq<char> {
    "Not possible to convert '"@ + s + "' into a positive integer"@
}

proof fn lemma_decimal_value_nonneg(d: Seq<char>)
    requires
        forall|i: int| 0 <= i < d.len() ==> #[trigger] is_digit(d[i]),
    ensures
        decimal_value(d) >= 0,
    decreases d.len(),
{
    if d.len() > 0 {
        lemma_decimal_value_nonneg(d.drop_last());
        assert(is_digit(d[d.len() - 1]));
    }
}

proof fn lemma_decimal_value_grows(d: Seq<char>, j: int)
    requires
        0 <= j <= d.len(),
        forall|i: int| 0 <= i < d.len() ==> #[trigger] is_digit(d[i]),
    ensures
        decimal_value(d.take(j)) <= decimal_value(d),
    decreases d.len() - j,
{
    if j < d.len() {
        lemma_decimal_value_grows(d, j + 1);
        assert(d.take(j + 1).drop_last() =~= d.take(j));
        assert(is_digit(d[j]));
        lemma_decimal_value_nonneg(d.take(j));
    } else {
        assert(d.take(j) =~= d);
    }
}

/// Reads `input` as a `u128` written in decimal; underscores are ignored.
pub fn parse_to_integer(input: &str) -> (r: Result<u128, String>)
    ensures
        match r {
            Ok(v) => parsed_value(input@) == Some(v as int),
            Err(e) => parsed_value(input@) is None && e@ == not_a_number_message(input@),
        },
{
    let n = input.unicode_len();
    let mut text: Vec<char> = Vec::new();
    let mut i: usize = 0;
    while i < n
        invariant
            n == input@.len(),
            i <= n,
            text@ == strip_underscores(input@.take(i as int)),
        decreases n - i,
    {
        let c = input.get_char(i);
        proof {
            assert(input@.take(i + 1).drop_last() =~= input@.take(i as int));
        }
        if c != '_' {
            text.push(c);
        }
        i = i + 1;
    }
    assert(input@.take(n as int) =~= input@);
    let ghost d = unsigned_part(text@);
    let mut start: usize = 0;
    if text.len() > 0 && text[0] == '+' {
        start = 1;
    }
    assert(d =~= text@.subrange(start as int, text@.len() as int));
    let mut value: u128 = 0;
    let mut j: usize = start;
    let mut ok = text.len() > start;
    while ok && j < text.len()
        invariant
            start <= j <= text@.len(),
            text@ == strip_underscores(input@),
            d == unsigned_part(text@),
            d == text@.subrange(start as int, text@.len() as int),
            ok ==> value == decimal_value(d.take(j - start)),
            ok ==> forall|k: int| 0 <= k < j - start ==> #[trigger] is_digit(d[k]),
            ok ==> d.len() > 0,
            !ok ==> parsed_value(input@) is None,
        decreases text@.len() - j + (if ok {
            1int
        } else {
            0int
        }),
    {
        let c = text[j];
        assert(d[j - start] == c);
        assert(d.take(j - start + 1).drop_last() =~= d.take(j - start));
        if '0' <= c && c <= '9' {
            let digit = (c as u32 - '0' as u32) as u128;
            match value.checked_mul(10) {
                Some(m) => match m.checked_add(digit) {
                    Some(v) => {
                        value = v;
                        j = j + 1;
                    },
                    None => {
                        proof {
                            if forall|k: int| 0 <= k < d.len() ==> #[trigger] is_digit(d[k]) {
                                lemma_decimal_value_grows(d, j - start + 1);
                            }
                        }
                        ok = false;
                    },
                },
                None => {
                    proof {
                        if forall|k: int| 0 <= k < d.len() ==> #[trigger] is_digit(d[k]) {
                            lemma_decimal_value_grows(d, j - start + 1);
                        }
                    }
                    ok = false;
                },
            }
        } else {
            assert(!is_digit(d[j - start]));
            ok = false;
        }
    }
    if ok {
        assert(d.take(d.len() as int) =~= d);
        Ok(value)
    } else {
        let mut message = String::from_str("Not possible to convert '");
        message.append(input);
        message.append("' into a positive integer");
        Err(message)
    }
}

} // verus!
