//! Characters and tokens: the lexical layer under the FEN decoders.

use vstd::prelude::*;

verus! {

/// The characters of `s`, in order.
pub fn to_chars(s: &str) -> (chars: Vec<char>)
    ensures
        chars@ == s@,
{
    let mut chars: Vec<char> = Vec::new();
    for c in it: s.chars()
        invariant
            chars@ == it.seq().take(it.index() as int),
            it.seq() == s@,
    {
        chars.push(c);
    }
    chars
}

/// Whether `c` is a decimal digit `0` to `9`.
pub open spec fn is_digit(c: char) -> bool {
    '0' <= c <= '9'
}

/// The number that the decimal digit `c` stands for.
pub open spec fn digit_value(c: char) -> int
    recommends
        is_digit(c),
{
    c as int - '0' as int
}

/// Reads `c` as a decimal digit: `Some` of its value for `0` to `9`, `None`
/// for every other character.
pub fn to_digit(c: char) -> (d: Option<u8>)
    ensures
        is_digit(c) ==> d == Some(digit_value(c) as u8),
        !is_digit(c) ==> d is None,
{
    if '0' <= c && c <= '9' {
        Some((c as u8) - ('0' as u8))
    } else {
        None
    }
}

/// Whether `c` is white space: one of the characters with the Unicode
/// property `White_Space`.
pub open spec fn is_space(c: char) -> bool {
    ||| '\u{9}' <= c <= '\u{d}'
    ||| c == ' '
    ||| c == '\u{85}'
    ||| c == '\u{a0}'
    ||| c == '\u{1680}'
    ||| '\u{2000}' <= c <= '\u{200a}'
    ||| c == '\u{2028}'
    ||| c == '\u{2029}'
    ||| c == '\u{202f}'
    ||| c == '\u{205f}'
    ||| c == '\u{3000}'
}

/// Tells whether `c` is white space.
pub fn is_whitespace(c: char) -> (space: bool)
    ensures
        space == is_space(c),
{
    ('\u{9}' <= c && c <= '\u{d}') || c == ' ' || c == '\u{85}' || c == '\u{a0}' || c
        == '\u{1680}' || ('\u{2000}' <= c && c <= '\u{200a}') || c == '\u{2028}' || c
        == '\u{2029}' || c == '\u{202f}' || c == '\u{205f}' || c == '\u{3000}'
}

/// Where the fields of `s` lie: for each maximal run of characters that
/// are not white space, in order, the index of its first character and
/// the index just past its last.
pub open spec fn field_spans(s: Seq<char>) -> Seq<(int, int)>
    decreases s.len(),
{
    if s.len() == 0 {
        Seq::empty()
    } else {
        let before = field_spans(s.drop_last());
        let last = s.len() - 1;
        if is_space(s[last]) {
            before
        } else if last > 0 && !is_space(s[last - 1]) && before.len() > 0 {
            before.drop_last().push((before.last().0, last + 1))
        } else {
            before.push((last, last + 1))
        }
    }
}

/// The fields of `s`: its maximal runs of characters that are not white
/// space, in order.
pub open spec fn fields(s: Seq<char>) -> Seq<Seq<char>> {
    field_spans(s).map_values(|span: (int, int)| s.subrange(span.0, span.1))
}

/// Whether one of `spans` holds index `i`.
pub open spec fn covers(spans: Seq<(int, int)>, i: int) -> bool {
    exists|k: int| 0 <= k < spans.len() && (#[trigger] spans[k]).0 <= i < spans[k].1
}

/// What makes `spans` the fields of `s`: every span is a non-empty run
/// without white space, with white space or an end of the text on either
/// side; the spans follow each other; and every character that is not
/// white space lies in one.
pub open spec fn is_field_split(s: Seq<char>, spans: Seq<(int, int)>) -> bool {
    &&& forall|k: int|
        0 <= k < spans.len() ==> 0 <= (#[trigger] spans[k]).0 < spans[k].1 <= s.len()
    &&& forall|k: int, i: int|
        0 <= k < spans.len() && (#[trigger] spans[k]).0 <= i < spans[k].1 ==> !is_space(
            #[trigger] s[i],
        )
    &&& forall|k: int|
        0 <= k < spans.len() && (#[trigger] spans[k]).0 > 0 ==> is_space(s[spans[k].0 - 1])
    &&& forall|k: int|
        0 <= k < spans.len() && (#[trigger] spans[k]).1 < s.len() ==> is_space(s[spans[k].1])
    &&& forall|j: int, k: int|
        0 <= j < k < spans.len() ==> (#[trigger] spans[j]).1 < (#[trigger] spans[k]).0
    &&& forall|i: int| 0 <= i < s.len() && !is_space(#[trigger] s[i]) ==> covers(spans, i)
}

/// The fields of a text are its maximal runs of characters that are not
/// white space, in order.
pub proof fn lemma_fields_are_maximal_runs(s: Seq<char>)
    ensures
        is_field_split(s, field_spans(s)),
    decreases s.len(),
{
    if s.len() > 0 {
        let n = s.len() - 1;
        let t = s.drop_last();
        let p = field_spans(t);
        let q = field_spans(s);
        lemma_fields_are_maximal_runs(t);
        assert forall|i: int| 0 <= i < n implies t[i] == s[i] by {}
        // The last field of the text, where it ends in one, ends with it.
        let open = if is_space(s[n]) {
            -1
        } else {
            q.len() - 1
        };
        assert forall|i: int| 0 <= i < s.len() && !is_space(#[trigger] s[i]) implies covers(
            q,
            i,
        ) by {
            if i == n {
                assert(q[open].0 <= i < q[open].1);
            } else {
                let k = choose|k: int| 0 <= k < p.len() && (#[trigger] p[k]).0 <= i < p[k].1;
                assert(q[k].0 <= i < q[k].1);
            }
        }
    }
}

/// The integer pairs that a vector of index pairs stands for.
pub open spec fn spans_view(spans: Seq<(usize, usize)>) -> Seq<(int, int)> {
    spans.map_values(|span: (usize, usize)| (span.0 as int, span.1 as int))
}

/// Finds the fields of `s`: see [`field_spans`].
pub fn split_fields(s: &Vec<char>) -> (spans: Vec<(usize, usize)>)
    ensures
        spans_view(spans@) == field_spans(s@),
        forall|k: int|
            0 <= k < spans.len() ==> (#[trigger] spans[k]).0 < spans[k].1 <= s.len(),
{
    let mut spans: Vec<(usize, usize)> = Vec::new();
    let mut start: usize = 0;
    let mut inside: bool = false;
    let mut i: usize = 0;
    while i < s.len()
        invariant
            i <= s.len(),
            inside ==> start < i && !is_space(s@[i - 1]),
            !inside ==> i == 0 || is_space(s@[i - 1]),
            field_spans(s@.take(i as int)) == if inside {
                spans_view(spans@).push((start as int, i as int))
            } else {
                spans_view(spans@)
            },
            forall|k: int| 0 <= k < spans.len() ==> (#[trigger] spans[k]).0 < spans[k].1 <= i,
        decreases s.len() - i,
    {
        let c = s[i];
        proof {
            assert(s@.take(i + 1).drop_last() =~= s@.take(i as int));
        }
        if is_whitespace(c) {
            if inside {
                spans.push((start, i));
                inside = false;
            }
        } else if !inside {
            start = i;
            inside = true;
        }
        i += 1;
    }
    proof {
        assert(s@.take(i as int) =~= s@);
    }
    if inside {
        spans.push((start, i));
    }
    spans
}

/// The number that a run of decimal digits stands for.
pub open spec fn decimal(s: Seq<char>) -> int
    decreases s.len(),
{
    if s.len() == 0 {
        0
    } else {
        decimal(s.drop_last()) * 10 + digit_value(s.last())
    }
}

/// Whether `s` holds decimal digits only.
pub open spec fn all_digits(s: Seq<char>) -> bool {
    forall|i: int| 0 <= i < s.len() ==> is_digit(#[trigger] s[i])
}

/// Whether `s` starts with a sign, `+` or `-`.
pub open spec fn has_sign(s: Seq<char>) -> bool {
    s.len() > 0 && (s[0] == '+' || s[0] == '-')
}

/// The digits of a numeral: what follows its sign, if it has one.
pub open spec fn digits_of(s: Seq<char>) -> Seq<char> {
    if has_sign(s) {
        s.subrange(1, s.len() as int)
    } else {
        s
    }
}

/// The integer that the numeral `s` stands for: an optional sign followed
/// by one or more decimal digits. Anything else is no numeral.
pub open spec fn integer(s: Seq<char>) -> Option<int> {
    let digits = digits_of(s);
    if digits.len() == 0 || !all_digits(digits) {
        None
    } else if s[0] == '-' {
        Some(-decimal(digits))
    } else {
        Some(decimal(digits))
    }
}

/// The integer that the numeral `s` stands for, if it fits in an `i32`.
pub open spec fn integer_i32(s: Seq<char>) -> Option<i32> {
    match integer(s) {
        Some(v) => if i32::MIN <= v <= i32::MAX {
            Some(v as i32)
        } else {
            None
        },
        None => None,
    }
}

/// A run of digits stands for no less than any of its prefixes does.
proof fn lemma_decimal_grows(s: Seq<char>, k: int)
    requires
        all_digits(s),
        0 <= k <= s.len(),
    ensures
        0 <= decimal(s.take(k)) <= decimal(s),
    decreases s.len() - k,
{
    lemma_decimal_nonnegative(s.take(k));
    if k == s.len() {
        assert(s.take(k) =~= s);
    } else {
        assert(s.take(k + 1).drop_last() =~= s.take(k));
        lemma_decimal_grows(s, k + 1);
    }
}

/// A run of digits stands for a number that is not negative.
proof fn lemma_decimal_nonnegative(s: Seq<char>)
    requires
        all_digits(s),
    ensures
        0 <= decimal(s),
    decreases s.len(),
{
    if s.len() > 0 {
        lemma_decimal_nonnegative(s.drop_last());
    }
}

/// Reads `s` as a decimal integer: an optional sign, then digits. Gives
/// `None` where `s` is no numeral or the number does not fit.
pub fn parse_i32(s: &str) -> (number: Option<i32>)
    ensures
        number == integer_i32(s@),
{
    let chars = to_chars(s);
    let n: usize = chars.len();
    let negative: bool = n > 0 && chars[0] == '-';
    let first: usize = if n > 0 && (chars[0] == '+' || chars[0] == '-') {
        1
    } else {
        0
    };
    if first == n {
        return None;
    }
    let ghost digits = digits_of(s@);
    let mut total: i64 = 0;
    let mut i: usize = first;
    while i < n
        invariant
            first <= i <= n,
            n == chars.len(),
            digits == chars@.subrange(first as int, n as int),
            digits == digits_of(s@),
            all_digits(digits.take(i - first)),
            total == decimal(digits.take(i - first)),
            0 <= total <= 2147483648,
        decreases n - i,
    {
        let ghost k = i - first;
        proof {
            assert(digits.take(k + 1).drop_last() =~= digits.take(k));
        }
        match to_digit(chars[i]) {
            None => {
                proof {
                    assert(!is_digit(digits[k]));
                }
                return None;
            },
            Some(d) => {
                let next: i64 = total * 10 + (d as i64);
                proof {
                    assert forall|j: int| 0 <= j < k + 1 implies is_digit(
                        #[trigger] digits.take(k + 1)[j],
                    ) by {}
                }
                if next > 2147483648 {
                    proof {
                        if all_digits(digits) {
                            lemma_decimal_grows(digits, k + 1);
                        }
                    }
                    return None;
                }
                total = next;
            },
        }
        i += 1;
    }
    proof {
        assert(digits.take(n - first) =~= digits);
    }
    if negative {
        Some((-total) as i32)
    } else if total == 2147483648 {
        None
    } else {
        Some(total as i32)
    }
}

} // verus!
