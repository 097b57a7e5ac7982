//! Reading back what was written: the text of a value denotes the value.

use vstd::prelude::*;
use crate::grammar::{
    digits_between, digits_end, distinct_keys, integer_end, items_at, key_position,
    escape_at, lemma_key_position, lemma_skip_ws, members_at, number_at, parse, put, skip_ws,
    string_at, string_tail, value_at, RECURSIVE_LIMIT,
};
use crate::number::{all_digits, digits_text, is_canonical, NumberModel};
use crate::render::{
    escape_letter, escaped, item_runs, json_text, member_line, member_lines, quoted, spaces,
    INDENT_STEP,
};
use crate::value::Json;
use crate::text::{digit_value, is_digit, is_whitespace};

verus! {

/// `t` stands in `s` at `i`.
pub open spec fn holds(s: Seq<char>, i: int, t: Seq<char>) -> bool {
    &&& 0 <= i
    &&& i + t.len() <= s.len()
    &&& forall|x: int| 0 <= x < t.len() ==> s[i + x] == #[trigger] t[x]
}

/// No number goes on at `i`: the text ends there, or what stands there is
/// no digit, no point and no exponent mark.
pub open spec fn stops_number(s: Seq<char>, i: int) -> bool {
    i >= s.len() || !(is_digit(s[i]) || s[i] == '.' || s[i] == 'e' || s[i] == 'E')
}

/// A text that is two texts one behind the other stands where the first
/// stands with the second behind it.
pub proof fn lemma_holds_split(s: Seq<char>, i: int, a: Seq<char>, b: Seq<char>)
    ensures
        holds(s, i, a + b) <==> holds(s, i, a) && holds(s, i + a.len(), b),
{
    if holds(s, i, a + b) {
        assert forall|x: int| 0 <= x < a.len() implies s[i + x] == #[trigger] a[x] by {
            assert((a + b)[x] == a[x]);
        }
        assert forall|x: int| 0 <= x < b.len() implies s[i + a.len() + x] == #[trigger] b[x] by {
            assert((a + b)[a.len() + x] == b[x]);
        }
    }
    if holds(s, i, a) && holds(s, i + a.len(), b) {
        assert forall|x: int| 0 <= x < (a + b).len() implies s[i + x] == #[trigger] (a + b)[x] by {
            if x < a.len() {
                assert((a + b)[x] == a[x]);
            } else {
                assert((a + b)[x] == b[x - a.len()]);
            }
        }
    }
}

/// Whitespace that stands up to a character that is none is skipped.
pub proof fn lemma_skip_run(s: Seq<char>, from: int, to: int)
    requires
        0 <= from <= to <= s.len(),
        forall|k: int| from <= k < to ==> is_whitespace(#[trigger] s[k]),
        to < s.len() ==> !is_whitespace(s[to]),
    ensures
        skip_ws(s, from) == to,
    decreases to - from,
{
    if from < to {
        assert(is_whitespace(s[from]));
        lemma_skip_run(s, from + 1, to);
    }
}

/// Digits that stand up to a character that is none are read as they are.
pub proof fn lemma_digits_run(s: Seq<char>, a: int, d: Seq<u8>)
    requires
        all_digits(d),
        holds(s, a, digits_text(d)),
        a + d.len() < s.len() ==> !is_digit(s[a + d.len()]),
    ensures
        digits_end(s, a) == a + d.len(),
        digits_between(s, a, a + d.len()) == d,
    decreases d.len(),
{
    assert forall|k: int| 0 <= k < d.len() implies is_digit(s[a + k]) && digit_value(s[a + k])
        == d[k] by {
        assert(s[a + k] == digits_text(d)[k]);
        assert(d[k] < 10);
    }
    assert(digits_between(s, a, a + d.len()) =~= d);
    assert forall|k: int| a <= k < a + d.len() implies is_digit(#[trigger] s[k]) by {
        assert(s[a + (k - a)] == digits_text(d)[k - a]);
        assert(d[k - a] < 10);
    }
    lemma_digits_run_end(s, a, a + d.len());
}

/// A run of digits ends where the first character stands that is none.
pub proof fn lemma_digits_run_end(s: Seq<char>, from: int, to: int)
    requires
        0 <= from <= to <= s.len(),
        forall|k: int| from <= k < to ==> is_digit(#[trigger] s[k]),
        to < s.len() ==> !is_digit(s[to]),
    ensures
        digits_end(s, from) == to,
    decreases to - from,
{
    if from < to {
        assert(is_digit(s[from]));
        lemma_digits_run_end(s, from + 1, to);
    }
}

/// Canonical digits that stand up to a character that is no digit are
/// read as an integer part.
pub proof fn lemma_integer_run(s: Seq<char>, a: int, d: Seq<u8>)
    requires
        is_canonical(d),
        holds(s, a, digits_text(d)),
        a + d.len() < s.len() ==> !is_digit(s[a + d.len()]),
    ensures
        integer_end(s, a) == Some(a + d.len()),
        digits_between(s, a, a + d.len()) == d,
{
    lemma_digits_run(s, a, d);
    assert(s[a + 0] == digits_text(d)[0]);
    assert(d[0] < 10);
}

/// Escaped characters up to a quote are read as the characters that were
/// escaped.
pub proof fn lemma_escaped_round_trip(s: Seq<char>, at: int, t: Seq<char>, from: int)
    requires
        0 <= from <= t.len(),
        holds(s, at, escaped(t, from) + seq!['"']),
    ensures
        string_tail(s, at) matches Some(lit) && lit.content == t.subrange(from, t.len() as int)
            && lit.end == at + escaped(t, from).len() + 1,
    decreases t.len() - from,
{
    let rest = escaped(t, from) + seq!['"'];
    if from == t.len() {
        assert(s[at + 0] == rest[0]);
        assert(t.subrange(from, t.len() as int) =~= Seq::<char>::empty());
    } else {
        let c = t[from];
        let head = match escape_letter(c) {
            Some(letter) => seq!['\\', letter],
            None => seq![c],
        };
        assert(rest =~= head + (escaped(t, from + 1) + seq!['"']));
        lemma_holds_split(s, at, head, escaped(t, from + 1) + seq!['"']);
        lemma_escaped_round_trip(s, at + head.len(), t, from + 1);
        assert(s[at + 0] == head[0]);
        match escape_letter(c) {
            Some(letter) => {
                assert(s[at + 1] == head[1]);
                reveal(escape_at);
                assert(escape_at(s, at + 1) == Some((c, at + 2)));
            },
            None => {},
        }
        assert(seq![c] + t.subrange(from + 1, t.len() as int) =~= t.subrange(
            from,
            t.len() as int,
        ));
    }
}

/// A text between quotes is read as itself.
pub proof fn lemma_quoted_round_trip(s: Seq<char>, i: int, t: Seq<char>)
    requires
        holds(s, i, quoted(t)),
    ensures
        string_at(s, i) matches Some(lit) && lit.content == t && lit.end == i + quoted(t).len(),
{
    let q = quoted(t);
    assert(q =~= seq!['"'] + (escaped(t, 0) + seq!['"']));
    lemma_holds_split(s, i, seq!['"'], escaped(t, 0) + seq!['"']);
    assert(s[i + 0] == q[0]);
    lemma_escaped_round_trip(s, i + 1, t, 0);
    assert(t.subrange(0, t.len() as int) =~= t);
}

/// The text of a number, where no number goes on behind it, is read as
/// the number.
pub proof fn lemma_number_round_trip(s: Seq<char>, i: int, n: NumberModel)
    requires
        n.wf(),
        holds(s, i, n.text()),
        stops_number(s, i + n.text().len()),
    ensures
        number_at(s, i) == Some((n, i + n.text().len())),
{
    let sign = if n.negative {
        seq!['-']
    } else {
        Seq::<char>::empty()
    };
    let whole = digits_text(n.integer);
    let exponent_sign = if n.exponent_negative {
        seq!['-']
    } else {
        Seq::<char>::empty()
    };
    let fraction = if n.fraction.len() > 0 {
        seq!['.'] + digits_text(n.fraction)
    } else {
        Seq::<char>::empty()
    };
    let power = if n.exponent.len() > 0 {
        seq!['e'] + exponent_sign + digits_text(n.exponent)
    } else {
        Seq::<char>::empty()
    };
    assert(n.text() == sign + whole + fraction + power);
    lemma_holds_split(s, i, sign + whole + fraction, power);
    lemma_holds_split(s, i, sign + whole, fraction);
    lemma_holds_split(s, i, sign, whole);
    let a = i + sign.len();
    let b = a + whole.len();
    let c = b + fraction.len();
    let end = c + power.len();
    assert(end == i + n.text().len());
    // What stands behind each part is no digit.
    assert(whole.len() == n.integer.len());
    assert(whole[0] == crate::text::digit_char(n.integer[0]));
    assert(n.integer[0] < 10);
    assert(s[a + 0] == whole[0]);
    if n.negative {
        assert(s[i + 0] == sign[0]);
    }
    if n.fraction.len() > 0 {
        assert(s[b + 0] == fraction[0]);
        lemma_holds_split(s, b, seq!['.'], digits_text(n.fraction));
    }
    if n.exponent.len() > 0 {
        assert(s[c + 0] == power[0]);
        lemma_holds_split(s, c, seq!['e'] + exponent_sign, digits_text(n.exponent));
        lemma_holds_split(s, c, seq!['e'], exponent_sign);
        if n.exponent_negative {
            assert(s[c + 1 + 0] == exponent_sign[0]);
        } else {
            let digits = digits_text(n.exponent);
            assert(s[c + 1 + 0] == digits[0]);
            assert(n.exponent[0] < 10);
        }
    }
    lemma_integer_run(s, a, n.integer);
    if n.fraction.len() > 0 {
        lemma_digits_run(s, b + 1, n.fraction);
    }
    if n.exponent.len() > 0 {
        lemma_integer_run(s, c + 1 + exponent_sign.len(), n.exponent);
    }
    match number_at(s, i) {
        Some((m, _)) => {
            assert(m.integer == n.integer);
            assert(m.fraction =~= n.fraction);
            assert(m.exponent =~= n.exponent);
            assert(m == n);
        },
        None => {
            assert(false);
        },
    }
}

impl Json {
    /// The value can be written and read back: its numbers are written as
    /// the grammar writes numbers, and no object has a key twice.
    pub open spec fn faithful(self) -> bool
        decreases self,
    {
        match self {
            Json::Number(n) => n.wf(),
            Json::Object(members) => distinct_keys(members) && forall|k: int|
                0 <= k < members.len() ==> (#[trigger] members[k]).1.faithful(),
            Json::Array(items) => forall|k: int|
                0 <= k < items.len() ==> (#[trigger] items[k]).faithful(),
            _ => true,
        }
    }

    /// The number of values in the tree, this one counted.
    pub open spec fn size(self) -> nat
        decreases self, 0nat,
    {
        match self {
            Json::Object(members) => 1 + Self::members_size(members, members.len()),
            Json::Array(items) => 1 + Self::items_size(items, items.len()),
            _ => 1,
        }
    }

    /// The number of values in the first `upto` members.
    pub open spec fn members_size(members: Seq<(Seq<char>, Json)>, upto: nat) -> nat
        decreases members, upto,
    {
        if upto == 0 || upto > members.len() {
            0
        } else {
            Self::members_size(members, (upto - 1) as nat) + members[upto - 1].1.size()
        }
    }

    /// The number of values in the first `upto` elements.
    pub open spec fn items_size(items: Seq<Json>, upto: nat) -> nat
        decreases items, upto,
    {
        if upto == 0 || upto > items.len() {
            0
        } else {
            Self::items_size(items, (upto - 1) as nat) + items[upto - 1].size()
        }
    }
}

/// The text of a value begins with a character that tells its kind, and
/// that is no whitespace, no comma and no closing bracket.
pub proof fn lemma_text_head(value: Json, indentation: nat)
    requires
        value.faithful(),
    ensures
        json_text(value, indentation).len() >= 1,
        match value {
            Json::String(_) => json_text(value, indentation)[0] == '"',
            Json::Number(_) => json_text(value, indentation)[0] == '-' || is_digit(
                json_text(value, indentation)[0],
            ),
            Json::Boolean(b) => json_text(value, indentation) == if b {
                seq!['t', 'r', 'u', 'e']
            } else {
                seq!['f', 'a', 'l', 's', 'e']
            },
            Json::Null => json_text(value, indentation) == seq!['n', 'u', 'l', 'l'],
            Json::Array(_) => json_text(value, indentation)[0] == '[',
            Json::Object(_) => json_text(value, indentation)[0] == '{',
        },
        !is_whitespace(json_text(value, indentation)[0]),
        json_text(value, indentation)[0] != ',',
        json_text(value, indentation)[0] != ']',
        json_text(value, indentation)[0] != '}',
{
    reveal_strlit("true");
    reveal_strlit("false");
    reveal_strlit("null");
    match value {
        Json::Boolean(b) => {
            if b {
                assert("true"@ =~= seq!['t', 'r', 'u', 'e']);
            } else {
                assert("false"@ =~= seq!['f', 'a', 'l', 's', 'e']);
            }
        },
        Json::Null => {
            assert("null"@ =~= seq!['n', 'u', 'l', 'l']);
        },
        Json::Number(n) => {
            let digits = digits_text(n.integer);
            assert(n.integer[0] < 10);
            assert(digits[0] == crate::text::digit_char(n.integer[0]));
            if n.negative {
                assert(n.text()[0] == '-');
            } else {
                assert(n.text()[0] == digits[0]);
            }
        },
        _ => {},
    }
}

/// Whitespace before a value does not matter to what is read.
pub proof fn lemma_value_skip(s: Seq<char>, a: int, b: int, count: nat)
    requires
        0 <= a <= s.len(),
        skip_ws(s, a) == b,
    ensures
        value_at(s, a, count) == value_at(s, b, count),
{
    lemma_skip_ws(s, a);
}

/// The runs of the first elements stand at the start of the runs of more.
pub proof fn lemma_runs_prefix(items: Seq<Json>, indentation: nat, k: nat, n: nat)
    requires
        k <= n <= items.len(),
    ensures
        item_runs(items, indentation, k).len() <= item_runs(items, indentation, n).len(),
        item_runs(items, indentation, n).take(item_runs(items, indentation, k).len() as int)
            == item_runs(items, indentation, k),
    decreases n - k,
{
    if k < n {
        lemma_runs_prefix(items, indentation, k, (n - 1) as nat);
        let shorter = item_runs(items, indentation, (n - 1) as nat);
        let longer = item_runs(items, indentation, n);
        let first = item_runs(items, indentation, k);
        assert(longer.take(first.len() as int) =~= shorter.take(first.len() as int));
    } else {
        let all = item_runs(items, indentation, n);
        assert(all.take(all.len() as int) =~= all);
    }
}

/// The lines of the first members stand at the start of the lines of more.
pub proof fn lemma_lines_prefix(
    members: Seq<(Seq<char>, Json)>,
    indentation: nat,
    k: nat,
    n: nat,
)
    requires
        k <= n <= members.len(),
    ensures
        member_lines(members, indentation, k).len() <= member_lines(members, indentation, n).len(),
        member_lines(members, indentation, n).take(
            member_lines(members, indentation, k).len() as int,
        ) == member_lines(members, indentation, k),
    decreases n - k,
{
    if k < n {
        lemma_lines_prefix(members, indentation, k, (n - 1) as nat);
        let shorter = member_lines(members, indentation, (n - 1) as nat);
        let longer = member_lines(members, indentation, n);
        let first = member_lines(members, indentation, k);
        assert(longer.take(first.len() as int) =~= shorter.take(first.len() as int));
    } else {
        let all = member_lines(members, indentation, n);
        assert(all.take(all.len() as int) =~= all);
    }
}

/// The first elements hold no more values than all of them.
pub proof fn lemma_items_size_monotone(items: Seq<Json>, k: nat, n: nat)
    requires
        k <= n <= items.len(),
    ensures
        Json::items_size(items, k) <= Json::items_size(items, n),
    decreases n - k,
{
    if k < n {
        lemma_items_size_monotone(items, k, (n - 1) as nat);
    }
}

/// The first members hold no more values than all of them.
pub proof fn lemma_members_size_monotone(members: Seq<(Seq<char>, Json)>, k: nat, n: nat)
    requires
        k <= n <= members.len(),
    ensures
        Json::members_size(members, k) <= Json::members_size(members, n),
    decreases n - k,
{
    if k < n {
        lemma_members_size_monotone(members, k, (n - 1) as nat);
    }
}

/// Where the text of an array stands, each element stands at its place,
/// with a comma and a space behind it, or the closing bracket behind the
/// last.
pub proof fn lemma_array_layout(s: Seq<char>, at: int, items: Seq<Json>, indentation: nat, k: int)
    requires
        holds(s, at, json_text(Json::Array(items), indentation)),
        0 <= k < items.len(),
    ensures
        s[at] == '[',
        holds(
            s,
            at + 1 + item_runs(items, indentation, k as nat).len(),
            json_text(items[k], indentation),
        ),
        ({
            let behind = at + 1 + item_runs(items, indentation, k as nat).len() + json_text(
                items[k],
                indentation,
            ).len();
            if k < items.len() - 1 {
                &&& s[behind] == ','
                &&& s[behind + 1] == ' '
                &&& behind + 2 == at + 1 + item_runs(items, indentation, (k + 1) as nat).len()
                &&& behind + 2 < s.len()
            } else {
                &&& s[behind] == ']'
                &&& behind + 1 == at + json_text(Json::Array(items), indentation).len()
            }
        }),
{
    let n = items.len();
    let text = json_text(Json::Array(items), indentation);
    let runs = item_runs(items, indentation, n);
    let before = item_runs(items, indentation, k as nat);
    let through = item_runs(items, indentation, (k + 1) as nat);
    let element = json_text(items[k], indentation);
    lemma_runs_prefix(items, indentation, (k + 1) as nat, n);
    assert(through == before + element + seq![',', ' ']);
    assert(text == seq!['['] + runs.take(runs.len() - 2) + seq![']']);
    assert(s[at + 0] == text[0]);
    assert forall|x: int| 0 <= x < through.len() implies runs[x] == through[x] by {
        assert(runs.take(through.len() as int)[x] == runs[x]);
    }
    assert forall|x: int| 0 <= x < element.len() implies s[at + 1 + before.len() + x]
        == #[trigger] element[x] by {
        let y = before.len() + x;
        assert(through[y] == element[x]);
        assert(text[1 + y] == runs[y]);
        assert(s[at + (1 + y)] == text[1 + y]);
    }
    let behind = at + 1 + before.len() + element.len();
    if k < n - 1 {
        lemma_runs_prefix(items, indentation, (k + 2) as nat, n);
        let further = item_runs(items, indentation, (k + 2) as nat);
        assert(further == through + json_text(items[k + 1], indentation) + seq![',', ' ']);
        let y = (before.len() + element.len()) as int;
        assert(through[y] == ',');
        assert(through[y + 1] == ' ');
        assert(text[1 + y] == runs[y]);
        assert(text[2 + y] == runs[y + 1]);
        assert(s[at + (1 + y)] == text[1 + y]);
        assert(s[at + (2 + y)] == text[2 + y]);
    } else {
        assert(through == runs);
        let last = text.len() - 1;
        assert(text[last] == ']');
        assert(s[at + last] == text[last]);
    }
}

/// The text of a faithful value, where no number goes on behind it, is
/// read as the value, up to the end of the text, each value counted.
pub proof fn lemma_value_round_trip(
    s: Seq<char>,
    at: int,
    count: nat,
    value: Json,
    indentation: nat,
)
    requires
        value.faithful(),
        holds(s, at, json_text(value, indentation)),
        stops_number(s, at + json_text(value, indentation).len()),
        count + value.size() <= RECURSIVE_LIMIT,
    ensures
        value_at(s, at, count) == Some(
            (value, at + json_text(value, indentation).len(), count + value.size()),
        ),
    decreases value, 0nat,
{
    let text = json_text(value, indentation);
    lemma_text_head(value, indentation);
    assert(s[at + 0] == text[0]);
    assert(skip_ws(s, at) == at);
    match value {
        Json::String(t) => {
            lemma_quoted_round_trip(s, at, t);
        },
        Json::Number(n) => {
            lemma_number_round_trip(s, at, n);
        },
        Json::Boolean(_) => {},
        Json::Null => {},
        Json::Array(items) => {
            if items.len() == 0 {
                assert(s[at + 1] == text[1]);
                assert(skip_ws(s, at + 1) == at + 1);
                assert(items =~= Seq::<Json>::empty());
                assert(items_at(s, at + 1, count + 1, Seq::empty()) == Some(
                    (Seq::<Json>::empty(), at + 2, count + 1),
                ));
            } else {
                assert(items.take(0) =~= Seq::<Json>::empty());
                lemma_items_round_trip(s, at, count, items, indentation, 0);
            }
        },
        Json::Object(members) => {
            if members.len() == 0 {
                assert(s[at + 1] == text[1]);
                assert(skip_ws(s, at + 1) == at + 1);
                assert(members =~= Seq::<(Seq<char>, Json)>::empty());
                assert(members_at(s, at + 1, count + 1, Seq::empty()) == Some(
                    (Seq::<(Seq<char>, Json)>::empty(), at + 2, count + 1),
                ));
            } else {
                assert(members.take(0) =~= Seq::<(Seq<char>, Json)>::empty());
                lemma_members_round_trip(s, at, count, members, indentation, 0);
            }
        },
    }
}

/// The elements of an array from the `k`th on, read behind the first `k`.
pub proof fn lemma_items_round_trip(
    s: Seq<char>,
    at: int,
    count: nat,
    items: Seq<Json>,
    indentation: nat,
    k: int,
)
    requires
        items.len() > 0,
        Json::Array(items).faithful(),
        holds(s, at, json_text(Json::Array(items), indentation)),
        0 <= k <= items.len(),
        count + 1 + Json::items_size(items, items.len()) <= RECURSIVE_LIMIT,
    ensures
        items_at(
            s,
            if k == 0 {
                at + 1
            } else {
                at + 1 + item_runs(items, indentation, k as nat).len() - 2
            },
            count + 1 + Json::items_size(items, k as nat),
            items.take(k),
        ) == Some(
            (
                items,
                at + json_text(Json::Array(items), indentation).len(),
                count + 1 + Json::items_size(items, items.len()),
            ),
        ),
    decreases items, items.len() - k,
{
    let n = items.len() as int;
    let from = if k == 0 {
        at + 1
    } else {
        at + 1 + item_runs(items, indentation, k as nat).len() - 2
    };
    let counted = count + 1 + Json::items_size(items, k as nat);
    if k == n {
        lemma_array_layout(s, at, items, indentation, n - 1);
        assert(s[from] == ']');
        assert(skip_ws(s, from) == from);
        assert(items.take(k) =~= items);
    } else {
        let element = json_text(items[k], indentation);
        let start = at + 1 + item_runs(items, indentation, k as nat).len();
        lemma_array_layout(s, at, items, indentation, k);
        lemma_text_head(items[k], indentation);
        assert(s[start + 0] == element[0]);
        lemma_items_size_monotone(items, (k + 1) as nat, n as nat);
        lemma_value_round_trip(s, start, counted, items[k], indentation);
        if k == 0 {
            assert(skip_ws(s, from) == from);
        } else {
            lemma_array_layout(s, at, items, indentation, k - 1);
            assert(s[from] == ',');
            assert(s[from + 1] == ' ');
            assert(skip_ws(s, from) == from);
            lemma_skip_run(s, from + 1, start);
            lemma_value_skip(s, from + 1, start, counted);
        }
        assert(items.take(k).push(items[k]) =~= items.take(k + 1));
        lemma_items_round_trip(s, at, count, items, indentation, k + 1);
    }
}

/// Where the text of an object stands, each member stands at its place: the
/// indentation, the key between quotes, a colon and a space, the value;
/// behind it a comma and a line break, or behind the last a line break,
/// the indentation of the object and the closing brace.
pub proof fn lemma_object_layout(
    s: Seq<char>,
    at: int,
    members: Seq<(Seq<char>, Json)>,
    indentation: nat,
    k: int,
)
    requires
        holds(s, at, json_text(Json::Object(members), indentation)),
        0 <= k < members.len(),
    ensures
        s[at] == '{',
        s[at + 1] == '\n',
        ({
            let inner = indentation + INDENT_STEP as nat;
            let line = at + 2 + member_lines(members, inner, k as nat).len();
            let key = quoted(members[k].0);
            let start = line + inner + key.len() + 2;
            let behind = start + json_text(members[k].1, inner).len();
            &&& holds(s, line, spaces(inner))
            &&& holds(s, line + inner, key)
            &&& s[line + inner + key.len()] == ':'
            &&& s[line + inner + key.len() + 1] == ' '
            &&& holds(s, start, json_text(members[k].1, inner))
            &&& behind == at + member_lines(members, inner, (k + 1) as nat).len()
            &&& if k < members.len() - 1 {
                &&& s[behind] == ','
                &&& s[behind + 1] == '\n'
                &&& behind + 2 == at + 2 + member_lines(members, inner, (k + 1) as nat).len()
                &&& behind + 2 < s.len()
            } else {
                &&& s[behind] == '\n'
                &&& holds(s, behind + 1, spaces(indentation))
                &&& s[behind + 1 + indentation] == '}'
                &&& behind + 2 + indentation == at + json_text(
                    Json::Object(members),
                    indentation,
                ).len()
            }
        }),
{
    let n = members.len();
    let inner = indentation + INDENT_STEP as nat;
    let text = json_text(Json::Object(members), indentation);
    let lines = member_lines(members, inner, n);
    let before = member_lines(members, inner, k as nat);
    let through = member_lines(members, inner, (k + 1) as nat);
    let key = members[k].0;
    let value = json_text(members[k].1, inner);
    let body = spaces(inner) + quoted(key) + seq![':', ' '] + value;
    let line = at + 2 + before.len();
    lemma_lines_prefix(members, inner, (k + 1) as nat, n);
    assert(member_line(members[k], inner) == body + seq![',', '\n']);
    assert(through == before + (body + seq![',', '\n']));
    assert(text == seq!['{', '\n'] + lines.take(lines.len() - 2) + seq!['\n'] + spaces(indentation)
        + seq!['}']);
    assert(s[at + 0] == text[0]);
    assert(s[at + 1] == text[1]);
    assert forall|x: int| 0 <= x < through.len() implies lines[x] == through[x] by {
        assert(lines.take(through.len() as int)[x] == lines[x]);
    }
    assert forall|x: int| 0 <= x < body.len() implies s[line + x] == #[trigger] body[x] by {
        let y = before.len() + x;
        assert(through[y] == body[x]);
        assert(text[2 + y] == lines[y]);
        assert(s[at + (2 + y)] == text[2 + y]);
    }
    assert(holds(s, line, body));
    lemma_holds_split(s, line, spaces(inner) + quoted(key) + seq![':', ' '], value);
    lemma_holds_split(s, line, spaces(inner) + quoted(key), seq![':', ' ']);
    lemma_holds_split(s, line, spaces(inner), quoted(key));
    let colon = line + inner + quoted(key).len();
    assert(s[colon + 0] == seq![':', ' '][0]);
    assert(s[colon + 1] == seq![':', ' '][1]);
    let behind = line + body.len();
    if k < n - 1 {
        lemma_lines_prefix(members, inner, (k + 2) as nat, n);
        let further = member_lines(members, inner, (k + 2) as nat);
        assert(further == through + member_line(members[k + 1], inner));
        let y = (before.len() + body.len()) as int;
        assert(through[y] == ',');
        assert(through[y + 1] == '\n');
        assert(text[2 + y] == lines[y]);
        assert(text[3 + y] == lines[y + 1]);
        assert(s[at + (2 + y)] == text[2 + y]);
        assert(s[at + (3 + y)] == text[3 + y]);
    } else {
        assert(through == lines);
        let y = lines.len() - 2;
        assert(text[2 + y] == '\n');
        assert(s[at + (2 + y)] == text[2 + y]);
        assert forall|x: int| 0 <= x < indentation implies s[behind + 1 + x] == #[trigger] spaces(
            indentation,
        )[x] by {
            assert(text[3 + y + x] == ' ');
            assert(s[at + (3 + y + x)] == text[3 + y + x]);
        }
        let last = text.len() - 1;
        assert(text[last] == '}');
        assert(s[at + last] == text[last]);
    }
}

/// The members of an object from the `k`th on, read behind the first `k`.
pub proof fn lemma_members_round_trip(
    s: Seq<char>,
    at: int,
    count: nat,
    members: Seq<(Seq<char>, Json)>,
    indentation: nat,
    k: int,
)
    requires
        members.len() > 0,
        Json::Object(members).faithful(),
        holds(s, at, json_text(Json::Object(members), indentation)),
        0 <= k <= members.len(),
        count + 1 + Json::members_size(members, members.len()) <= RECURSIVE_LIMIT,
    ensures
        members_at(
            s,
            if k == 0 {
                at + 1
            } else {
                at + member_lines(members, indentation + INDENT_STEP as nat, k as nat).len()
            },
            count + 1 + Json::members_size(members, k as nat),
            members.take(k),
        ) == Some(
            (
                members,
                at + json_text(Json::Object(members), indentation).len(),
                count + 1 + Json::members_size(members, members.len()),
            ),
        ),
    decreases members, members.len() - k,
{
    let n = members.len() as int;
    let inner = indentation + INDENT_STEP as nat;
    let from = if k == 0 {
        at + 1
    } else {
        at + member_lines(members, inner, k as nat).len()
    };
    let counted = count + 1 + Json::members_size(members, k as nat);
    if k == n {
        lemma_object_layout(s, at, members, indentation, n - 1);
        let brace = from + 1 + indentation;
        assert(s[from] == '\n');
        assert forall|x: int| from <= x < brace implies is_whitespace(#[trigger] s[x]) by {
            if x > from {
                assert(s[from + 1 + (x - from - 1)] == spaces(indentation)[x - from - 1]);
            }
        }
        lemma_skip_run(s, from, brace);
        assert(members.take(k) =~= members);
    } else {
        let key = members[k].0;
        let value = json_text(members[k].1, inner);
        let line = at + 2 + member_lines(members, inner, k as nat).len();
        let quote = line + inner;
        let colon = quote + quoted(key).len();
        let start = colon + 2;
        lemma_object_layout(s, at, members, indentation, k);
        assert(s[quote + 0] == quoted(key)[0]);
        lemma_quoted_round_trip(s, quote, key);
        lemma_text_head(members[k].1, inner);
        assert(s[start + 0] == value[0]);
        lemma_members_size_monotone(members, (k + 1) as nat, n as nat);
        lemma_value_round_trip(s, start, counted, members[k].1, inner);
        lemma_skip_run(s, colon + 1, start);
        lemma_value_skip(s, colon + 1, start, counted);
        assert(skip_ws(s, colon) == colon);
        if k == 0 {
            assert forall|x: int| from <= x < quote implies is_whitespace(#[trigger] s[x]) by {
                if x > from {
                    assert(s[line + (x - line)] == spaces(inner)[x - line]);
                }
            }
            lemma_skip_run(s, from, quote);
        } else {
            lemma_object_layout(s, at, members, indentation, k - 1);
            assert(s[from] == ',');
            assert(s[from + 1] == '\n');
            assert(skip_ws(s, from) == from);
            assert forall|x: int| from + 1 <= x < quote implies is_whitespace(
                #[trigger] s[x],
            ) by {
                if x > from + 1 {
                    assert(s[line + (x - line)] == spaces(inner)[x - line]);
                }
            }
            lemma_skip_run(s, from + 1, quote);
        }
        assert(skip_ws(s, quote) == quote);
        let first = members.take(k);
        lemma_key_position(first, key, 0);
        assert(key_position(first, key, 0) == first.len()) by {
            let p = key_position(first, key, 0);
            if p < first.len() {
                assert(first[p] == members[p]);
                assert(members[p].0 != members[k].0);
            }
        }
        assert(put(first, key, members[k].1) =~= members.take(k + 1));
        lemma_members_round_trip(s, at, count, members, indentation, k + 1);
    }
}

/// What is written is read back. The text of a value whose numbers are
/// written as the grammar writes numbers, whose objects have no key twice,
/// and which holds no more values than one reading may begin, denotes the
/// value, at whatever indentation it was written and whatever characters
/// its texts hold.
pub proof fn law_round_trip(value: Json, indentation: nat)
    requires
        value.faithful(),
        value.size() <= RECURSIVE_LIMIT,
    ensures
        parse(json_text(value, indentation)) == Some(value),
{
    let text = json_text(value, indentation);
    lemma_value_round_trip(text, 0, 0, value, indentation);
}

/// Members hold as many values as their first ones and their last one.
pub proof fn lemma_members_size_push(members: Seq<(Seq<char>, Json)>, member: (Seq<char>, Json))
    ensures
        Json::members_size(members.push(member), members.len() + 1) == Json::members_size(
            members,
            members.len(),
        ) + member.1.size(),
{
    let more = members.push(member);
    lemma_members_size_same(members, more, members.len());
}

/// Members that are the same up to `upto` hold the same number of values
/// up to there.
pub proof fn lemma_members_size_same(
    a: Seq<(Seq<char>, Json)>,
    b: Seq<(Seq<char>, Json)>,
    upto: nat,
)
    requires
        upto <= a.len(),
        upto <= b.len(),
        forall|k: int| 0 <= k < upto ==> a[k] == b[k],
    ensures
        Json::members_size(a, upto) == Json::members_size(b, upto),
    decreases upto,
{
    if upto > 0 {
        lemma_members_size_same(a, b, (upto - 1) as nat);
    }
}

/// Putting a value in the place of another changes the number of values by
/// the difference of the two.
pub proof fn lemma_members_size_update(
    members: Seq<(Seq<char>, Json)>,
    p: int,
    member: (Seq<char>, Json),
    upto: nat,
)
    requires
        0 <= p < members.len(),
        upto <= members.len(),
    ensures
        Json::members_size(members.update(p, member), upto) == if p < upto {
            Json::members_size(members, upto) - members[p].1.size() + member.1.size()
        } else {
            Json::members_size(members, upto) as int
        },
        p < upto ==> Json::members_size(members, upto) >= members[p].1.size(),
    decreases upto,
{
    if upto > 0 {
        lemma_members_size_update(members, p, member, (upto - 1) as nat);
    }
}

/// Elements hold as many values as their first ones and their last one.
pub proof fn lemma_items_size_push(items: Seq<Json>, item: Json)
    ensures
        Json::items_size(items.push(item), items.len() + 1) == Json::items_size(
            items,
            items.len(),
        ) + item.size(),
{
    lemma_items_size_same(items, items.push(item), items.len());
}

/// Elements that are the same up to `upto` hold the same number of values
/// up to there.
pub proof fn lemma_items_size_same(a: Seq<Json>, b: Seq<Json>, upto: nat)
    requires
        upto <= a.len(),
        upto <= b.len(),
        forall|k: int| 0 <= k < upto ==> a[k] == b[k],
    ensures
        Json::items_size(a, upto) == Json::items_size(b, upto),
    decreases upto,
{
    if upto > 0 {
        lemma_items_size_same(a, b, (upto - 1) as nat);
    }
}

/// Binding a key keeps the keys distinct and the values faithful, and adds
/// no more values than the new value holds.
pub proof fn lemma_put_faithful(members: Seq<(Seq<char>, Json)>, key: Seq<char>, value: Json)
    requires
        distinct_keys(members),
        forall|k: int| 0 <= k < members.len() ==> (#[trigger] members[k]).1.faithful(),
        value.faithful(),
    ensures
        distinct_keys(put(members, key, value)),
        forall|k: int|
            0 <= k < put(members, key, value).len() ==> (#[trigger] put(
                members,
                key,
                value,
            )[k]).1.faithful(),
        Json::members_size(put(members, key, value), put(members, key, value).len())
            <= Json::members_size(members, members.len()) + value.size(),
{
    let p = key_position(members, key, 0);
    let after = put(members, key, value);
    lemma_key_position(members, key, 0);
    if p < members.len() {
        lemma_members_size_update(members, p, (key, value), members.len());
        assert forall|i: int, j: int| 0 <= i < j < after.len() implies (#[trigger] after[i]).0 != (
        #[trigger] after[j]).0 by {
            assert(members[i].0 != members[j].0);
        }
    } else {
        lemma_members_size_push(members, (key, value));
        assert forall|i: int, j: int| 0 <= i < j < after.len() implies (#[trigger] after[i]).0 != (
        #[trigger] after[j]).0 by {
            if j < members.len() {
                assert(members[i].0 != members[j].0);
            } else {
                assert(members[i].0 != key);
            }
        }
    }
    assert forall|k: int| 0 <= k < after.len() implies (#[trigger] after[k]).1.faithful() by {
        if k < members.len() && k != p {
            assert(members[k].1.faithful());
        }
    }
}

/// A value that was read can be written and read back, and holds no more
/// values than were counted while it was read.
pub proof fn lemma_value_at_faithful(s: Seq<char>, i: int, count: nat)
    ensures
        value_at(s, i, count) matches Some((value, _, n)) ==> value.faithful() && count
            + value.size() <= n,
    decreases s.len() - i, 0nat,
{
    let j = skip_ws(s, i);
    if !(count >= RECURSIVE_LIMIT || i < 0 || j < i || j >= s.len()) {
        let c = s[j];
        if c == '{' {
            lemma_members_at_faithful(s, j + 1, count + 1, Seq::empty(), count + 1);
        } else if c == '[' {
            lemma_items_at_faithful(s, j + 1, count + 1, Seq::empty(), count + 1);
        } else if c == '-' || is_digit(c) {
            crate::grammar::lemma_number_at(s, j);
        }
    }
}

/// The members of an object that was read: see `lemma_value_at_faithful`.
/// `base` is the count at which the object was begun.
pub proof fn lemma_members_at_faithful(
    s: Seq<char>,
    i: int,
    count: nat,
    acc: Seq<(Seq<char>, Json)>,
    base: nat,
)
    requires
        distinct_keys(acc),
        forall|k: int| 0 <= k < acc.len() ==> (#[trigger] acc[k]).1.faithful(),
        base + Json::members_size(acc, acc.len()) <= count,
    ensures
        members_at(s, i, count, acc) matches Some((members, _, n)) ==> Json::Object(
            members,
        ).faithful() && base + Json::members_size(members, members.len()) <= n,
    decreases s.len() - i, 1nat,
{
    let j = skip_ws(s, i);
    if !(i < 0 || j < i || j >= s.len()) && s[j] != '}' {
        let k = skip_ws(s, crate::grammar::skip_comma(s, j));
        match string_at(s, k) {
            None => {},
            Some(key) => {
                let c = skip_ws(s, key.end);
                if k <= key.end <= c < s.len() && j <= k && s[c] == ':' {
                    lemma_value_at_faithful(s, c + 1, count);
                    match value_at(s, c + 1, count) {
                        None => {},
                        Some((value, end, m)) => {
                            if i < end <= s.len() {
                                lemma_put_faithful(acc, key.content, value);
                                lemma_members_at_faithful(
                                    s,
                                    end,
                                    m,
                                    put(acc, key.content, value),
                                    base,
                                );
                            }
                        },
                    }
                }
            },
        }
    }
}

/// The elements of an array that was read: see `lemma_value_at_faithful`.
/// `base` is the count at which the array was begun.
pub proof fn lemma_items_at_faithful(s: Seq<char>, i: int, count: nat, acc: Seq<Json>, base: nat)
    requires
        forall|k: int| 0 <= k < acc.len() ==> (#[trigger] acc[k]).faithful(),
        base + Json::items_size(acc, acc.len()) <= count,
    ensures
        items_at(s, i, count, acc) matches Some((items, _, n)) ==> Json::Array(items).faithful()
            && base + Json::items_size(items, items.len()) <= n,
    decreases s.len() - i, 1nat,
{
    let j = skip_ws(s, i);
    if !(i < 0 || j < i || j >= s.len()) && s[j] != ']' {
        let k = crate::grammar::skip_comma(s, j);
        lemma_value_at_faithful(s, k, count);
        match value_at(s, k, count) {
            None => {},
            Some((value, end, m)) => {
                if i < end <= s.len() {
                    let after = acc.push(value);
                    lemma_items_size_push(acc, value);
                    assert forall|x: int| 0 <= x < after.len() implies (
                    #[trigger] after[x]).faithful() by {
                        if x < acc.len() {
                            assert(acc[x].faithful());
                        }
                    }
                    lemma_items_at_faithful(s, end, m, after, base);
                }
            },
        }
    }
}

/// What was read is read back. Whatever the text, the value that is read
/// from it, written at whatever indentation, is read as itself again.
pub proof fn law_read_written_read(s: Seq<char>, indentation: nat)
    ensures
        parse(s) matches Some(value) ==> parse(json_text(value, indentation)) == Some(value),
{
    lemma_value_at_faithful(s, 0, 0);
    crate::bounds::lemma_value_at_bounds(s, 0, 0);
    match parse(s) {
        Some(value) => {
            law_round_trip(value, indentation);
        },
        None => {},
    }
}

} // verus!
