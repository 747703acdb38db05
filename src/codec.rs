use vstd::prelude::*;
use vstd::utf8::*;

verus! {

/// The ten decimal digits, in order of value.
pub open spec fn digit_chars() -> Seq<char> {
    seq!['0', '1', '2', '3', '4', '5', '6', '7', '8', '9']
}

pub open spec fn is_digit(c: char) -> bool {
    '0' <= c && c <= '9'
}

pub open spec fn digit_value(c: char) -> nat {
    (c as int - '0' as int) as nat
}

/// The decimal text of `n`, without sign or leading zeros.
pub open spec fn decimal(n: nat) -> Seq<char>
    decreases n,
{
    if n < 10 {
        seq![digit_chars()[n as int]]
    } else {
        decimal(n / 10).push(digit_chars()[(n % 10) as int])
    }
}

pub open spec fn all_digits(s: Seq<char>) -> bool {
    forall|i: int| 0 <= i < s.len() ==> is_digit(#[trigger] s[i])
}

/// The number that a text of decimal digits stands for.
pub open spec fn digits_value(s: Seq<char>) -> nat
    decreases s.len(),
{
    if s.len() == 0 {
        0
    } else {
        digits_value(s.drop_last()) * 10 + digit_value(s.last())
    }
}

/// What reading `s` as a `u32` gives: an optional `+`, then one or more
/// decimal digits whose value fits.
pub open spec fn parsed_u32(s: Seq<char>) -> Option<u32> {
    let d = if s.len() > 0 && s[0] == '+' {
        s.drop_first()
    } else {
        s
    };
    if d.len() > 0 && all_digits(d) && digits_value(d) <= u32::MAX {
        Some(digits_value(d) as u32)
    } else {
        None
    }
}

proof fn lemma_digit(d: nat)
    requires
        d < 10,
    ensures
        is_digit(digit_chars()[d as int]),
        digit_value(digit_chars()[d as int]) == d,
{
    let s = digit_chars();
    assert(s[0] == '0' && s[1] == '1' && s[2] == '2' && s[3] == '3' && s[4] == '4');
    assert(s[5] == '5' && s[6] == '6' && s[7] == '7' && s[8] == '8' && s[9] == '9');
}

/// The decimal text of `n` is digits only, and stands for `n`.
pub proof fn lemma_decimal(n: nat)
    ensures
        decimal(n).len() > 0,
        all_digits(decimal(n)),
        digits_value(decimal(n)) == n,
    decreases n,
{
    if n < 10 {
        lemma_digit(n);
        let s = decimal(n);
        assert(s.drop_last() =~= Seq::<char>::empty());
        assert(digits_value(s.drop_last()) == 0);
        assert(s.last() == digit_chars()[n as int]);
        assert(digits_value(s) == digit_value(s.last()));
    } else {
        lemma_decimal(n / 10);
        lemma_digit(n % 10);
        let s = decimal(n);
        assert(s.drop_last() =~= decimal(n / 10));
        assert(s.last() == digit_chars()[(n % 10) as int]);
        assert(digits_value(s) == (n / 10) * 10 + n % 10);
        assert forall|i: int| 0 <= i < s.len() implies is_digit(#[trigger] s[i]) by {
            if i < s.len() - 1 {
                assert(s[i] == decimal(n / 10)[i]);
            }
        }
    }
}

/// Reading back the decimal text of a `u32` gives that number.
pub proof fn lemma_parse_decimal(n: u32)
    ensures
        parsed_u32(decimal(n as nat)) == Some(n),
{
    lemma_decimal(n as nat);
    let s = decimal(n as nat);
    assert(is_digit(s[0]));
}

/// The text of one decimal digit.
fn digit_text(d: u64) -> (r: &'static str)
    requires
        d < 10,
    ensures
        r@ == seq![digit_chars()[d as int]],
{
    match d {
        0 => {
            proof {
                reveal_strlit("0");
            }
            "0"
        },
        1 => {
            proof {
                reveal_strlit("1");
            }
            "1"
        },
        2 => {
            proof {
                reveal_strlit("2");
            }
            "2"
        },
        3 => {
            proof {
                reveal_strlit("3");
            }
            "3"
        },
        4 => {
            proof {
                reveal_strlit("4");
            }
            "4"
        },
        5 => {
            proof {
                reveal_strlit("5");
            }
            "5"
        },
        6 => {
            proof {
                reveal_strlit("6");
            }
            "6"
        },
        7 => {
            proof {
                reveal_strlit("7");
            }
            "7"
        },
        8 => {
            proof {
                reveal_strlit("8");
            }
            "8"
        },
        _ => {
            proof {
                reveal_strlit("9");
            }
            "9"
        },
    }
}

/// The decimal text of `n`.
pub fn decimal_text(n: u64) -> (r: String)
    ensures
        r@ == decimal(n as nat),
    decreases n,
{
    if n < 10 {
        digit_text(n).to_owned()
    } else {
        let mut s = decimal_text(n / 10);
        s.append(digit_text(n % 10));
        s
    }
}

/// Relies on `str::parse::<u32>` (`u32::from_str`): an optional `+` and decimal
/// digits whose value fits are read; any other text is refused.
#[verifier::external_body]
pub(crate) fn parse_u32(s: &str) -> (r: Option<u32>)
    ensures
        r == parsed_u32(s@),
{
    s.parse::<u32>().ok()
}

/// Relies on `std::str::from_utf8`: it succeeds exactly on valid UTF-8, with
/// the text that the bytes encode.
#[verifier::external_body]
pub(crate) fn utf8_text(b: &[u8]) -> (r: Option<String>)
    ensures
        valid_utf8(b@) ==> r is Some && r->Some_0@ == decode_utf8(b@),
        !valid_utf8(b@) ==> r is None,
{
    std::str::from_utf8(b).ok().map(|t| t.to_string())
}

/// The text held by an optional string.
pub open spec fn text_view(o: Option<String>) -> Option<Seq<char>> {
    match o {
        Some(t) => Some(t@),
        None => None,
    }
}

/// What `serde_json::to_string` gives for a string.
pub uninterp spec fn json_of_str(s: Seq<char>) -> Option<Seq<char>>;

/// The JSON text of an optional number: `null` when absent.
pub open spec fn json_opt_number(v: Option<u32>) -> Seq<char> {
    match v {
        Some(n) => decimal(n as nat),
        None => seq!['n', 'u', 'l', 'l'],
    }
}

/// What `serde_json::from_str::<String>` gives for a JSON text.
pub uninterp spec fn str_of_json(t: Seq<char>) -> Option<Seq<char>>;

/// What `serde_json::from_str::<u32>` gives for a JSON text.
pub uninterp spec fn u32_of_json(t: Seq<char>) -> Option<u32>;

/// What `serde_json::from_str::<Option<u32>>` gives for a JSON text.
pub uninterp spec fn opt_u32_of_json(t: Seq<char>) -> Option<Option<u32>>;

/// Relies on `serde_json::to_string` for a `str`: the result depends on the text alone.
#[verifier::external_body]
pub(crate) fn str_to_json(s: &str) -> (r: Option<String>)
    ensures
        text_view(r) == json_of_str(s@),
{
    serde_json::to_string(s).ok()
}

/// Relies on `serde_json::to_string` for a `u32`: the decimal digits of the
/// number (written by `itoa`); writing to a string does not fail.
#[verifier::external_body]
pub(crate) fn u32_to_json(n: u32) -> (r: Option<String>)
    ensures
        text_view(r) == Some(decimal(n as nat)),
{
    serde_json::to_string(&n).ok()
}

/// Relies on `serde_json::to_string` for an `Option<u32>`: `null` when absent,
/// else the decimal digits of the number; writing to a string does not fail.
#[verifier::external_body]
pub(crate) fn opt_u32_to_json(v: Option<u32>) -> (r: Option<String>)
    ensures
        text_view(r) == Some(json_opt_number(v)),
{
    serde_json::to_string(&v).ok()
}

/// Relies on `serde_json::from_str::<String>`: the result depends on the text alone.
#[verifier::external_body]
pub(crate) fn str_from_json(t: &str) -> (r: Option<String>)
    ensures
        text_view(r) == str_of_json(t@),
{
    serde_json::from_str::<String>(t).ok()
}

/// Relies on `serde_json::from_str::<u32>`: the result depends on the text alone.
#[verifier::external_body]
pub(crate) fn u32_from_json(t: &str) -> (r: Option<u32>)
    ensures
        r == u32_of_json(t@),
{
    serde_json::from_str::<u32>(t).ok()
}

/// Relies on `serde_json::from_str::<Option<u32>>`: the result depends on the text alone.
#[verifier::external_body]
pub(crate) fn opt_u32_from_json(t: &str) -> (r: Option<Option<u32>>)
    ensures
        r == opt_u32_of_json(t@),
{
    serde_json::from_str::<Option<u32>>(t).ok()
}

} // verus!
