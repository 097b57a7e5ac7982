//! The grammar of the text format, as functions on a sequence of characters.
//!
//! Each function reads at a position and gives what stands there together
//! with the position behind it, or `None` where the text does not fit.
//! The grammar is lenient on purpose: a comma is accepted before any member
//! or element, also before the first; the letters behind the first one of
//! `true`, `false` and `null` are not looked at; and whatever follows the
//! first value of a text is left unread.

use vstd::prelude::*;
use crate::number::{is_canonical, NumberModel};
use crate::text::{digit_value, hex_value, is_digit, is_whitespace};
use crate::value::Json;

verus! {

/// The most values that one reading may begin. The count is never lowered,
/// so it bounds the depth of nesting and the number of values alike.
pub const RECURSIVE_LIMIT: usize = 1024;

/// The first position at or behind `i` that holds no whitespace.
pub open spec fn skip_ws(s: Seq<char>, i: int) -> int
    decreases s.len() - i,
{
    if 0 <= i < s.len() && is_whitespace(s[i]) {
        skip_ws(s, i + 1)
    } else {
        i
    }
}

/// The first position at or behind `i` that holds no decimal digit.
pub open spec fn digits_end(s: Seq<char>, i: int) -> int
    decreases s.len() - i,
{
    if 0 <= i < s.len() && is_digit(s[i]) {
        digits_end(s, i + 1)
    } else {
        i
    }
}

/// The values of the digits that stand from `from` up to `to`.
pub open spec fn digits_between(s: Seq<char>, from: int, to: int) -> Seq<u8> {
    Seq::new((to - from) as nat, |k: int| digit_value(s[from + k]))
}

/// Where a run of digits that starts at `i` ends when it is read as an
/// integer part: a zero stands alone, any other digit takes all digits that
/// follow it. `None` where no digit stands at `i`.
pub open spec fn integer_end(s: Seq<char>, i: int) -> Option<int> {
    if 0 <= i < s.len() && s[i] == '0' {
        Some(i + 1)
    } else if 0 <= i < s.len() && is_digit(s[i]) {
        Some(digits_end(s, i))
    } else {
        None
    }
}

/// The number that stands at `i` and the position behind it.
pub open spec fn number_at(s: Seq<char>, i: int) -> Option<(NumberModel, int)> {
    let negative = 0 <= i < s.len() && s[i] == '-';
    let a = if negative {
        i + 1
    } else {
        i
    };
    match integer_end(s, a) {
        None => None,
        Some(b) => {
            let has_fraction = b < s.len() && s[b] == '.';
            let c = if has_fraction {
                digits_end(s, b + 1)
            } else {
                b
            };
            let fraction = if has_fraction {
                digits_between(s, b + 1, c)
            } else {
                Seq::empty()
            };
            if c < s.len() && (s[c] == 'e' || s[c] == 'E') {
                if c + 1 < s.len() {
                    let d = if s[c + 1] == '-' || s[c + 1] == '+' {
                        c + 2
                    } else {
                        c + 1
                    };
                    match integer_end(s, d) {
                        None => None,
                        Some(e) => Some(
                            (
                                NumberModel {
                                    negative,
                                    integer: digits_between(s, a, b),
                                    fraction,
                                    exponent_negative: s[c + 1] == '-',
                                    exponent: digits_between(s, d, e),
                                },
                                e,
                            ),
                        ),
                    }
                } else {
                    None
                }
            } else {
                Some(
                    (
                        NumberModel {
                            negative,
                            integer: digits_between(s, a, b),
                            fraction,
                            exponent_negative: false,
                            exponent: Seq::empty(),
                        },
                        c,
                    ),
                )
            }
        },
    }
}

/// The number written by the four hexadecimal digits from `i`, if four stand there.
pub open spec fn hex4_at(s: Seq<char>, i: int) -> Option<u32> {
    if 0 <= i && i + 4 <= s.len() {
        match (hex_value(s[i]), hex_value(s[i + 1]), hex_value(s[i + 2]), hex_value(s[i + 3])) {
            (Some(a), Some(b), Some(c), Some(d)) => Some((((a * 16 + b) * 16 + c) * 16 + d) as u32),
            _ => None,
        }
    } else {
        None
    }
}

/// The code point that a high and a low surrogate stand for together.
pub open spec fn surrogate_pair(high: u32, low: u32) -> u32
    recommends
        0xD800 <= high <= 0xDBFF,
        0xDC00 <= low <= 0xDFFF,
{
    ((high - 0xD800) * 0x400 + (low - 0xDC00) + 0x1_0000) as u32
}

/// The character that the escape behind a backslash stands for, `i` being the
/// position behind the backslash, and the position behind the escape.
///
/// `\u` takes four hexadecimal digits. A high surrogate must be followed at
/// once by `\u` and a low surrogate, and the two give one character; a low
/// surrogate alone gives none.
#[verifier::opaque]
pub open spec fn escape_at(s: Seq<char>, i: int) -> Option<(char, int)> {
    if 0 <= i < s.len() {
        let c = s[i];
        if c == '"' || c == '/' || c == '\\' {
            Some((c, i + 1))
        } else if c == 'n' {
            Some(('\n', i + 1))
        } else if c == 'b' {
            Some(('\x08', i + 1))
        } else if c == 'f' {
            Some(('\x0C', i + 1))
        } else if c == 'r' {
            Some(('\r', i + 1))
        } else if c == 't' {
            Some(('\t', i + 1))
        } else if c == 'u' {
            match hex4_at(s, i + 1) {
                None => None,
                Some(u) => if 0xD800 <= u <= 0xDBFF {
                    if i + 6 < s.len() && s[i + 5] == '\\' && s[i + 6] == 'u' {
                        match hex4_at(s, i + 7) {
                            None => None,
                            Some(low) => if 0xDC00 <= low <= 0xDFFF {
                                Some((surrogate_pair(u, low) as char, i + 11))
                            } else {
                                None
                            },
                        }
                    } else {
                        None
                    }
                } else if 0xDC00 <= u <= 0xDFFF {
                    None
                } else {
                    Some((u as char, i + 5))
                },
            }
        } else {
            None
        }
    } else {
        None
    }
}

/// A string as it was read: the characters it denotes, the position behind
/// its closing quote, and whether it holds an escape.
pub struct StringLit {
    pub content: Seq<char>,
    pub end: int,
    pub escaped: bool,
}

/// The rest of a string from `i`, a position behind its opening quote, up to
/// its closing quote.
pub open spec fn string_tail(s: Seq<char>, i: int) -> Option<StringLit>
    decreases s.len() - i,
{
    if 0 <= i < s.len() {
        if s[i] == '"' {
            Some(StringLit { content: Seq::empty(), end: i + 1, escaped: false })
        } else if s[i] == '\\' {
            match escape_at(s, i + 1) {
                None => None,
                Some((c, j)) => if i < j <= s.len() {
                    match string_tail(s, j) {
                        None => None,
                        Some(rest) => Some(
                            StringLit {
                                content: seq![c] + rest.content,
                                end: rest.end,
                                escaped: true,
                            },
                        ),
                    }
                } else {
                    None
                },
            }
        } else {
            match string_tail(s, i + 1) {
                None => None,
                Some(rest) => Some(
                    StringLit {
                        content: seq![s[i]] + rest.content,
                        end: rest.end,
                        escaped: rest.escaped,
                    },
                ),
            }
        }
    } else {
        None
    }
}

/// The string that stands at `i`, where a quote opens it.
pub open spec fn string_at(s: Seq<char>, i: int) -> Option<StringLit> {
    if 0 <= i < s.len() && s[i] == '"' {
        string_tail(s, i + 1)
    } else {
        None
    }
}

/// The first position at or behind `from` whose member has the key `key`,
/// or the length of `members` where there is none.
pub open spec fn key_position<V>(members: Seq<(Seq<char>, V)>, key: Seq<char>, from: int) -> int
    decreases members.len() - from,
{
    if from < 0 || from >= members.len() {
        members.len() as int
    } else if members[from].0 == key {
        from
    } else {
        key_position(members, key, from + 1)
    }
}

/// `members` with `key` bound to `value`: in the place of the member that has
/// the key, or at the end where none has it.
pub open spec fn put<V>(members: Seq<(Seq<char>, V)>, key: Seq<char>, value: V) -> Seq<
    (Seq<char>, V),
> {
    let p = key_position(members, key, 0);
    if p < members.len() {
        members.update(p, (key, value))
    } else {
        members.push((key, value))
    }
}

/// No two members have the same key.
pub open spec fn distinct_keys<V>(members: Seq<(Seq<char>, V)>) -> bool {
    forall|i: int, j: int|
        0 <= i < j < members.len() ==> (#[trigger] members[i]).0 != (#[trigger] members[j]).0
}

/// The position behind a separating comma, if one stands at `i`.
pub open spec fn skip_comma(s: Seq<char>, i: int) -> int {
    if 0 <= i < s.len() && s[i] == ',' {
        i + 1
    } else {
        i
    }
}

/// The value that stands at or behind `i`, the position behind it, and the
/// number of values begun so far, `count` having been begun before.
pub open spec fn value_at(s: Seq<char>, i: int, count: nat) -> Option<(Json, int, nat)>
    decreases s.len() - i, 0nat,
{
    let j = skip_ws(s, i);
    if count >= RECURSIVE_LIMIT || i < 0 || j < i || j >= s.len() {
        None
    } else {
        let n = count + 1;
        let c = s[j];
        if c == '{' {
            match members_at(s, j + 1, n, Seq::empty()) {
                None => None,
                Some((members, end, m)) => Some((Json::Object(members), end, m)),
            }
        } else if c == '[' {
            match items_at(s, j + 1, n, Seq::empty()) {
                None => None,
                Some((items, end, m)) => Some((Json::Array(items), end, m)),
            }
        } else if c == '"' {
            match string_at(s, j) {
                None => None,
                Some(lit) => Some((Json::String(lit.content), lit.end, n)),
            }
        } else if c == 't' {
            if j + 4 <= s.len() {
                Some((Json::Boolean(true), j + 4, n))
            } else {
                None
            }
        } else if c == 'f' {
            if j + 5 <= s.len() {
                Some((Json::Boolean(false), j + 5, n))
            } else {
                None
            }
        } else if c == 'n' {
            if j + 4 <= s.len() {
                Some((Json::Null, j + 4, n))
            } else {
                None
            }
        } else if c == '-' || is_digit(c) {
            match number_at(s, j) {
                None => None,
                Some((number, end)) => Some((Json::Number(number), end, n)),
            }
        } else {
            None
        }
    }
}

/// The members of an object from `i`, a position behind its opening brace or
/// behind one of its members, added to `acc`; the position behind its closing
/// brace; and the number of values begun so far. A key that comes again
/// takes the place of the earlier one.
pub open spec fn members_at(s: Seq<char>, i: int, count: nat, acc: Seq<(Seq<char>, Json)>) -> Option<
    (Seq<(Seq<char>, Json)>, int, nat),
>
    decreases s.len() - i, 1nat,
{
    let j = skip_ws(s, i);
    if i < 0 || j < i || j >= s.len() {
        None
    } else if s[j] == '}' {
        Some((acc, j + 1, count))
    } else {
        let k = skip_ws(s, skip_comma(s, j));
        match string_at(s, k) {
            None => None,
            Some(key) => {
                let c = skip_ws(s, key.end);
                if k <= key.end <= c < s.len() && j <= k && s[c] == ':' {
                    match value_at(s, c + 1, count) {
                        None => None,
                        Some((value, end, m)) => if i < end <= s.len() {
                            members_at(s, end, m, put(acc, key.content, value))
                        } else {
                            None
                        },
                    }
                } else {
                    None
                }
            },
        }
    }
}

/// The elements of an array from `i`, a position behind its opening bracket
/// or behind one of its elements, added to `acc`; the position behind its
/// closing bracket; and the number of values begun so far.
pub open spec fn items_at(s: Seq<char>, i: int, count: nat, acc: Seq<Json>) -> Option<
    (Seq<Json>, int, nat),
>
    decreases s.len() - i, 1nat,
{
    let j = skip_ws(s, i);
    if i < 0 || j < i || j >= s.len() {
        None
    } else if s[j] == ']' {
        Some((acc, j + 1, count))
    } else {
        let k = skip_comma(s, j);
        match value_at(s, k, count) {
            None => None,
            Some((value, end, m)) => if i < end <= s.len() {
                items_at(s, end, m, acc.push(value))
            } else {
                None
            },
        }
    }
}

/// The value that a text denotes: the first value in it.
pub open spec fn parse(s: Seq<char>) -> Option<Json> {
    match value_at(s, 0, 0) {
        None => None,
        Some((value, _, _)) => Some(value),
    }
}

/// Skipping whitespace moves forward, stays within the text, and ends where
/// no whitespace stands.
pub proof fn lemma_skip_ws(s: Seq<char>, i: int)
    requires
        0 <= i <= s.len(),
    ensures
        i <= skip_ws(s, i) <= s.len(),
        skip_ws(s, i) < s.len() ==> !is_whitespace(s[skip_ws(s, i)]),
        forall|k: int| i <= k < skip_ws(s, i) ==> is_whitespace(#[trigger] s[k]),
        skip_ws(s, skip_ws(s, i)) == skip_ws(s, i),
    decreases s.len() - i,
{
    if i < s.len() && is_whitespace(s[i]) {
        lemma_skip_ws(s, i + 1);
    }
}

/// A run of digits moves forward, stays within the text, holds digits only,
/// and ends where no digit stands.
pub proof fn lemma_digits_end(s: Seq<char>, i: int)
    requires
        0 <= i <= s.len(),
    ensures
        i <= digits_end(s, i) <= s.len(),
        digits_end(s, i) < s.len() ==> !is_digit(s[digits_end(s, i)]),
        forall|k: int| i <= k < digits_end(s, i) ==> is_digit(#[trigger] s[k]),
    decreases s.len() - i,
{
    if i < s.len() && is_digit(s[i]) {
        lemma_digits_end(s, i + 1);
    }
}

/// The position of a key lies within the members or behind them; at it
/// stands the key, and before it the key does not stand.
pub proof fn lemma_key_position<V>(members: Seq<(Seq<char>, V)>, key: Seq<char>, from: int)
    requires
        0 <= from <= members.len(),
    ensures
        from <= key_position(members, key, from) <= members.len(),
        key_position(members, key, from) < members.len() ==> members[key_position(
            members,
            key,
            from,
        )].0 == key,
        forall|k: int| from <= k < key_position(members, key, from) ==> (#[trigger] members[k]).0 != key,
    decreases members.len() - from,
{
    if from < members.len() && members[from].0 != key {
        lemma_key_position(members, key, from + 1);
    }
}

/// A string ends within the text, behind a quote. One without an escape
/// denotes the very characters that stand between its quotes.
pub proof fn lemma_string_tail(s: Seq<char>, i: int)
    requires
        0 <= i,
    ensures
        string_tail(s, i) matches Some(lit) ==> {
            &&& i < lit.end <= s.len()
            &&& s[lit.end - 1] == '"'
            &&& !lit.escaped ==> lit.content == s.subrange(i, lit.end - 1)
        },
    decreases s.len() - i,
{
    if i < s.len() {
        if s[i] == '"' {
            assert(s.subrange(i, i) =~= Seq::<char>::empty());
        } else if s[i] == '\\' {
            match escape_at(s, i + 1) {
                None => {},
                Some((c, j)) => {
                    if i < j <= s.len() {
                        lemma_string_tail(s, j);
                    }
                },
            }
        } else {
            lemma_string_tail(s, i + 1);
            match string_tail(s, i + 1) {
                None => {},
                Some(rest) => {
                    if !rest.escaped {
                        assert(seq![s[i]] + s.subrange(i + 1, rest.end - 1) =~= s.subrange(
                            i,
                            rest.end - 1,
                        ));
                    }
                },
            }
        }
    }
}

/// Nothing is copied that need not be: a string without an escape denotes
/// the characters between its quotes, a slice of the text it stands in.
pub proof fn law_plain_string_is_slice(s: Seq<char>, i: int)
    requires
        0 <= i,
    ensures
        string_at(s, i) matches Some(lit) ==> (!lit.escaped ==> i + 2 <= lit.end <= s.len()
            && lit.content == s.subrange(i + 1, lit.end - 1)),
{
    lemma_string_tail(s, i + 1);
}

/// Binding a key adds at most one member; every member is then the new one
/// or the one that stood in its place before.
pub proof fn lemma_put<V>(members: Seq<(Seq<char>, V)>, key: Seq<char>, value: V)
    ensures
        members.len() <= put(members, key, value).len() <= members.len() + 1,
        forall|k: int|
            0 <= k < put(members, key, value).len() ==> {
                let m = #[trigger] put(members, key, value)[k];
                m == (key, value) || (k < members.len() && m == members[k])
            },
{
    lemma_key_position(members, key, 0);
}

/// A number that was read ends behind the place where it stands, within
/// the text, and is written as the grammar writes numbers.
pub proof fn lemma_number_at(s: Seq<char>, i: int)
    requires
        0 <= i,
    ensures
        number_at(s, i) matches Some((number, end)) ==> i < end <= s.len() && number.wf(),
{
    let negative = i < s.len() && s[i] == '-';
    let a = if negative {
        i + 1
    } else {
        i
    };
    lemma_integer_end(s, a);
    match integer_end(s, a) {
        None => {},
        Some(b) => {
            let has_fraction = b < s.len() && s[b] == '.';
            if has_fraction {
                lemma_digits_end(s, b + 1);
            }
            let c = if has_fraction {
                digits_end(s, b + 1)
            } else {
                b
            };
            if c < s.len() && (s[c] == 'e' || s[c] == 'E') && c + 1 < s.len() {
                let d = if s[c + 1] == '-' || s[c + 1] == '+' {
                    c + 2
                } else {
                    c + 1
                };
                lemma_integer_end(s, d);
            }
        },
    }
}

/// An integer part that was read ends behind its first digit, within the
/// text, and its digits are canonical.
pub proof fn lemma_integer_end(s: Seq<char>, i: int)
    requires
        0 <= i,
    ensures
        integer_end(s, i) matches Some(end) ==> i < end <= s.len() && is_canonical(
            digits_between(s, i, end),
        ),
{
    if i < s.len() && s[i] != '0' && is_digit(s[i]) {
        lemma_digits_end(s, i + 1);
        lemma_digits_end(s, i);
    }
}

/// No backslash stands in the text.
pub open spec fn no_backslash(s: Seq<char>) -> bool {
    forall|k: int| 0 <= k < s.len() ==> s[k] != '\\'
}

/// In a text without a backslash no string has an escape.
pub proof fn lemma_no_backslash(s: Seq<char>, i: int)
    requires
        no_backslash(s),
        0 <= i,
    ensures
        string_tail(s, i) matches Some(lit) ==> !lit.escaped,
    decreases s.len() - i,
{
    if i < s.len() && s[i] != '"' {
        lemma_no_backslash(s, i + 1);
    }
}

} // verus!
