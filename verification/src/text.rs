//! Decimal rendering and parsing of numbers, and splitting of command text.
use vstd::prelude::*;
use vstd::string::{StrSliceExecFns, StringExecFns};

verus! {

/// The text of a single decimal digit.
pub open spec fn digit_text(d: nat) -> Seq<char> {
    if d == 0 { "0"@ }
    else if d == 1 { "1"@ }
    else if d == 2 { "2"@ }
    else if d == 3 { "3"@ }
    else if d == 4 { "4"@ }
    else if d == 5 { "5"@ }
    else if d == 6 { "6"@ }
    else if d == 7 { "7"@ }
    else if d == 8 { "8"@ }
    else { "9"@ }
}

/// The decimal notation of `n`, without sign or leading zeros.
pub open spec fn decimal(n: nat) -> Seq<char>
    decreases n,
{
    if n < 10 { digit_text(n) } else { decimal(n / 10) + digit_text(n % 10) }
}

fn digit_str(d: u64) -> (s: &'static str)
    requires
        d < 10,
    ensures
        s@ == digit_text(d as nat),
{
    if d == 0 { "0" }
    else if d == 1 { "1" }
    else if d == 2 { "2" }
    else if d == 3 { "3" }
    else if d == 4 { "4" }
    else if d == 5 { "5" }
    else if d == 6 { "6" }
    else if d == 7 { "7" }
    else if d == 8 { "8" }
    else { "9" }
}

/// Renders `n` in decimal, as `to_string` does.
pub fn decimal_string(n: u64) -> (s: String)
    ensures
        s@ == decimal(n as nat),
    decreases n,
{
    if n < 10 {
        String::from_str(digit_str(n))
    } else {
        let mut s = decimal_string(n / 10);
        s.append(digit_str(n % 10));
        s
    }
}

/// The pieces of `s` between single spaces, as `str::split(" ")` gives them: two
/// spaces in a row give an empty piece, and the empty text gives one empty piece.
pub open spec fn split_on_space(s: Seq<char>) -> Seq<Seq<char>>
    decreases s.len(),
{
    if s.len() == 0 {
        seq![Seq::empty()]
    } else {
        let rest = split_on_space(s.drop_last());
        if s.last() == ' ' {
            rest.push(Seq::empty())
        } else {
            rest.update(rest.len() - 1, rest.last().push(s.last()))
        }
    }
}

/// Splitting always gives at least one piece.
pub proof fn lemma_split_nonempty(s: Seq<char>)
    ensures
        split_on_space(s).len() >= 1,
    decreases s.len(),
{
    if s.len() > 0 {
        lemma_split_nonempty(s.drop_last());
    }
}

/// Splits `text` at each single space.
pub fn split_spaces(text: &str) -> (r: Vec<String>)
    ensures
        r@.map_values(|p: String| p@) == split_on_space(text@),
{
    let n = text.unicode_len();
    let mut pieces: Vec<String> = Vec::new();
    let mut start: usize = 0;
    let mut i: usize = 0;
    proof {
        assert(text@.take(0) =~= Seq::<char>::empty());
        assert(split_on_space(text@.take(0)) == seq![Seq::<char>::empty()]);
        assert(pieces@.map_values(|p: String| p@).push(text@.subrange(0, 0)) =~= split_on_space(text@.take(0)));
    }
    while i < n
        invariant
            n == text@.len(),
            0 <= start <= i <= n,
            pieces@.map_values(|p: String| p@).push(text@.subrange(start as int, i as int))
                == split_on_space(text@.take(i as int)),
        decreases n - i,
    {
        proof {
            let t = text@.take(i + 1);
            assert(t.drop_last() =~= text@.take(i as int));
            lemma_split_nonempty(text@.take(i as int));
        }
        if text.get_char(i) == ' ' {
            let piece = text.substring_char(start, i).to_owned();
            pieces.push(piece);
            proof {
                assert(pieces@.map_values(|p: String| p@) =~= split_on_space(text@.take(i as int)));
                assert(text@.subrange(i + 1, i + 1) =~= Seq::<char>::empty());
            }
            start = i + 1;
        } else {
            proof {
                assert(text@.subrange(start as int, i + 1) =~= text@.subrange(start as int, i as int).push(text@[i as int]));
                let before = pieces@.map_values(|p: String| p@);
                assert(before.push(text@.subrange(start as int, i + 1))
                    =~= split_on_space(text@.take(i as int)).update(before.len() as int,
                        text@.subrange(start as int, i as int).push(text@[i as int])));
            }
        }
        i += 1;
    }
    let last = text.substring_char(start, n).to_owned();
    pieces.push(last);
    proof {
        assert(text@.take(n as int) =~= text@);
        assert(pieces@.map_values(|p: String| p@) =~= split_on_space(text@));
    }
    pieces
}

/// The value of a string of decimal digits.
pub open spec fn digits_value(d: Seq<char>) -> nat
    decreases d.len(),
{
    if d.len() == 0 {
        0
    } else {
        digits_value(d.drop_last()) * 10 + ((d.last() as nat) - ('0' as nat)) as nat
    }
}

/// Every character of `d` is an ASCII digit.
pub open spec fn all_digits(d: Seq<char>) -> bool {
    forall|i: int| 0 <= i < d.len() ==> '0' <= #[trigger] d[i] <= '9'
}

/// What `str::parse` gives for an unsigned type whose largest value is `max`: an
/// optional `+`, then one or more decimal digits whose value is at most `max`.
pub open spec fn parsed_number(s: Seq<char>, max: nat) -> Option<nat> {
    let d = if s.len() > 0 && s[0] == '+' { s.drop_first() } else { s };
    if d.len() > 0 && all_digits(d) && digits_value(d) <= max {
        Some(digits_value(d))
    } else {
        None
    }
}

/// Reading one more digit multiplies by ten and adds it.
proof fn lemma_digits_take(d: Seq<char>, i: int)
    requires
        0 <= i < d.len(),
    ensures
        digits_value(d.take(i + 1)) == digits_value(d.take(i)) * 10 + ((d[i] as nat) - ('0' as nat)) as nat,
{
    assert(d.take(i + 1).drop_last() =~= d.take(i));
}

/// A number read from a prefix of digits is no larger than the whole.
proof fn lemma_digits_grow(d: Seq<char>, i: int)
    requires
        0 <= i <= d.len(),
        all_digits(d),
    ensures
        digits_value(d.take(i)) <= digits_value(d),
    decreases d.len() - i,
{
    if i < d.len() {
        lemma_digits_take(d, i);
        lemma_digits_grow(d, i + 1);
    } else {
        assert(d.take(i) =~= d);
    }
}

/// Reads `s` as an unsigned number no larger than `max`, as `str::parse` does.
pub fn parse_number(s: &str, max: u64) -> (r: Option<u64>)
    ensures
        match r {
            Some(v) => parsed_number(s@, max as nat) == Some(v as nat),
            None => parsed_number(s@, max as nat) is None,
        },
{
    let n = s.unicode_len();
    let mut i: usize = 0;
    if n > 0 && s.get_char(0) == '+' {
        i = 1;
    }
    let ghost d = if s@.len() > 0 && s@[0] == '+' { s@.drop_first() } else { s@ };
    proof {
        assert(d =~= s@.subrange(i as int, n as int));
    }
    if i == n {
        return None;
    }
    let first = i;
    let mut value: u64 = 0;
    while i < n
        invariant
            n == s@.len(),
            0 <= first <= i <= n,
            first < n,
            d == s@.subrange(first as int, n as int),
            d == (if s@.len() > 0 && s@[0] == '+' { s@.drop_first() } else { s@ }),
            all_digits(d.take(i - first)),
            value == digits_value(d.take(i - first)),
            value <= max,
        decreases n - i,
    {
        let c = s.get_char(i);
        proof {
            assert(d[i - first] == c);
            lemma_digits_take(d, i - first);
        }
        if c < '0' || c > '9' {
            proof {
                assert(!all_digits(d)) by {
                    assert(d[i - first] == c);
                }
            }
            return None;
        }
        let digit = (c as u32 - '0' as u32) as u64;
        if digit > max || value > (max - digit) / 10 {
            proof {
                assert(all_digits(d.take(i - first + 1))) by {
                    assert forall|k: int| 0 <= k < i - first + 1 implies '0' <= #[trigger] d.take(i - first + 1)[k] <= '9' by {
                        if k < i - first {
                            assert(d.take(i - first + 1)[k] == d.take(i - first)[k]);
                        }
                    }
                }
                assert(value * 10 + digit > max) by (nonlinear_arith)
                    requires digit > max || value > (max - digit) / 10, value >= 0;
                if all_digits(d) {
                    lemma_digits_grow(d, i - first + 1);
                }
            }
            return None;
        }
        proof {
            assert(value * 10 + digit <= max) by (nonlinear_arith)
                requires value <= (max - digit) / 10, digit <= max;
        }
        value = value * 10 + digit;
        proof {
            assert forall|k: int| 0 <= k < i - first + 1 implies '0' <= #[trigger] d.take(i - first + 1)[k] <= '9' by {
                if k < i - first {
                    assert(d.take(i - first + 1)[k] == d.take(i - first)[k]);
                }
            }
        }
        i += 1;
    }
    proof {
        assert(d.take(n - first) =~= d);
    }
    Some(value)
}

/// Whether two texts are the same.
pub fn same_text(a: &str, b: &str) -> (r: bool)
    ensures
        r == (a@ == b@),
{
    let n = a.unicode_len();
    if n != b.unicode_len() {
        return false;
    }
    let mut i: usize = 0;
    while i < n
        invariant
            n == a@.len(),
            n == b@.len(),
            0 <= i <= n,
            forall|k: int| 0 <= k < i ==> a@[k] == b@[k],
        decreases n - i,
    {
        if a.get_char(i) != b.get_char(i) {
            return false;
        }
        i += 1;
    }
    proof {
        assert(a@ =~= b@);
    }
    true
}

} // verus!
