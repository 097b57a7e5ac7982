//! The reader: one pass over a text, one value out.

use vstd::prelude::*;
use vstd::string::StringSliceAdditionalSpecFns;
use vstd::utf8::encode_utf8;
use std::borrow::Cow;
use crate::grammar::{
    digits_between, digits_end, escape_at, hex4_at, integer_end, items_at, key_position,
    lemma_digits_end, lemma_no_backslash, members_at, no_backslash, number_at, parse, put,
    skip_ws, string_at, string_tail, value_at, StringLit, RECURSIVE_LIMIT,
};
use crate::number::{all_digits, is_canonical, Number};
use crate::slices::{
    byte_offset, lemma_bytes_between, lemma_offset_step, slice_between, utf8_width,
};
use crate::text::{
    char_from_u32, chars_of, cow_str, digit_of_char, digit_value, hex_of_char, is_digit_char,
    is_whitespace_char, push_char, str_eq,
};
use crate::value::{members_borrow, members_model, values_borrow, values_model, Value};

verus! {

/// A cursor over a text that is held whole in memory. It counts its
/// position in characters, and it counts the values it has begun.
pub struct Parser<'a> {
    recursion_depth: usize,
    source: &'a str,
    chars: Vec<char>,
    pos: usize,
    /// A place in the text whose offset in bytes is known.
    mark: usize,
    /// The offset of that place in bytes.
    mark_offset: usize,
}

/// `rest` with the characters `prefix` in front of what it denotes.
pub open spec fn with_prefix(prefix: Seq<char>, rest: Option<StringLit>, escaped: bool) -> Option<
    StringLit,
> {
    match rest {
        None => None,
        Some(r) => Some(
            StringLit { content: prefix + r.content, end: r.end, escaped: escaped || r.escaped },
        ),
    }
}

/// Characters that are neither a quote nor a backslash stand for themselves.
pub proof fn lemma_plain_run(s: Seq<char>, from: int, to: int)
    requires
        0 <= from <= to <= s.len(),
        forall|k: int| from <= k < to ==> s[k] != '"' && s[k] != '\\',
    ensures
        string_tail(s, from) == with_prefix(s.subrange(from, to), string_tail(s, to), false),
    decreases to - from,
{
    if from == to {
        assert(s.subrange(from, to) =~= Seq::<char>::empty());
        match string_tail(s, to) {
            None => {},
            Some(r) => {
                assert(Seq::<char>::empty() + r.content =~= r.content);
            },
        }
    } else {
        lemma_plain_run(s, from + 1, to);
        match string_tail(s, to) {
            None => {},
            Some(r) => {
                assert(seq![s[from]] + (s.subrange(from + 1, to) + r.content) =~= s.subrange(
                    from,
                    to,
                ) + r.content);
            },
        }
    }
}

/// Binds `key` to `value` in `members`: in the place of the first member
/// that has the key, or at the end where none has it.
pub fn insert_member<'a>(
    members: &mut Vec<(Cow<'a, str>, Value<'a>)>,
    key: Cow<'a, str>,
    value: Value<'a>,
)
    ensures
        members_model(final(members)@) == put(members_model(old(members)@), key@, value@),
        members_borrow(old(members)@) && key is Borrowed && value.borrows() ==> members_borrow(
            final(members)@,
        ),
{
    let ghost before = members_model(members@);
    let mut i: usize = 0;
    while i < members.len()
        invariant
            i <= members.len(),
            members@ == old(members)@,
            before == members_model(members@),
            key_position(before, key@, 0) == key_position(before, key@, i as int),
        decreases members.len() - i,
    {
        if str_eq(cow_str(&members[i].0), cow_str(&key)) {
            members.set(i, (key, value));
            assert(members_model(members@) =~= put(before, key@, value@));
            return ;
        }
        i += 1;
    }
    members.push((key, value));
    assert(members_model(members@) =~= put(before, key@, value@));
}

impl<'a> Parser<'a> {
    /// The text under the cursor, whole.
    pub closed spec fn text(&self) -> Seq<char> {
        self.source@
    }

    /// The position of the cursor: the number of characters behind it.
    pub closed spec fn position(&self) -> int {
        self.pos as int
    }

    /// The number of values begun so far.
    pub closed spec fn begun(&self) -> nat {
        self.recursion_depth as nat
    }

    /// The cursor stands within its text.
    pub closed spec fn wf(&self) -> bool {
        &&& self.chars@ == self.source@
        &&& self.pos <= self.chars.len()
        &&& self.recursion_depth <= RECURSIVE_LIMIT
        &&& self.mark <= self.chars.len()
        &&& self.mark_offset == byte_offset(self.chars@, self.mark as int)
    }

    /// A cursor at the start of `source`.
    pub fn new(source: &'a str) -> (p: Parser<'a>)
        ensures
            p.wf(),
            p.text() == source@,
            p.position() == 0,
            p.begun() == 0,
    {
        let chars = chars_of(source);
        assert(chars@.take(0) =~= Seq::<char>::empty());
        Parser { recursion_depth: 0, source, chars, pos: 0, mark: 0, mark_offset: 0 }
    }

    /// The offset in bytes of the place behind the first `k` characters.
    /// The search starts at the place that was asked for last, where that
    /// lies before `k`.
    fn byte_at(&mut self, k: usize) -> (offset: usize)
        requires
            old(self).wf(),
            k <= old(self).chars.len(),
        ensures
            final(self).wf(),
            final(self).chars@ == old(self).chars@,
            final(self).source == old(self).source,
            final(self).pos == old(self).pos,
            final(self).recursion_depth == old(self).recursion_depth,
            offset == byte_offset(old(self).chars@, k as int),
    {
        let total = self.source.as_bytes().len();
        if k < self.mark {
            self.mark = 0;
            self.mark_offset = 0;
            assert(self.chars@.take(0) =~= Seq::<char>::empty());
        }
        while self.mark < k
            invariant
                self.wf(),
                self.mark <= k <= self.chars.len(),
                self.chars@ == old(self).chars@,
                self.source == old(self).source,
                self.pos == old(self).pos,
                self.recursion_depth == old(self).recursion_depth,
                total == encode_utf8(self.chars@).len(),
            decreases k - self.mark,
        {
            proof {
                lemma_offset_step(self.chars@, self.mark as int);
                lemma_bytes_between(self.chars@, self.mark + 1, self.chars@.len() as int);
            }
            self.mark_offset += utf8_width(self.chars[self.mark]);
            self.mark += 1;
        }
        self.mark_offset
    }

    /// The number of characters behind the cursor.
    pub fn offset(&self) -> (n: usize)
        requires
            self.wf(),
        ensures
            n == self.position(),
            n <= self.text().len(),
    {
        self.pos
    }

    /// The character at the cursor, if the text has not ended.
    pub fn peek(&self) -> (r: Option<char>)
        requires
            self.wf(),
        ensures
            0 <= self.position() <= self.text().len(),
            r == if self.position() < self.text().len() {
                Some(self.text()[self.position()])
            } else {
                None
            },
    {
        if self.pos < self.chars.len() {
            Some(self.chars[self.pos])
        } else {
            None
        }
    }

    /// The number of characters from the cursor to the end of the text.
    pub fn left(&self) -> (n: usize)
        requires
            self.wf(),
        ensures
            n == self.text().len() - self.position(),
    {
        self.chars.len() - self.pos
    }

    /// Moves the cursor over `n` characters.
    pub fn advance(&mut self, n: usize)
        requires
            old(self).wf(),
            old(self).position() + n <= old(self).text().len(),
        ensures
            final(self).wf(),
            final(self).text() == old(self).text(),
            final(self).begun() == old(self).begun(),
            final(self).position() == old(self).position() + n,
    {
        self.pos += n;
    }

    /// Puts the cursor at `to`.
    pub fn seek(&mut self, to: usize)
        requires
            old(self).wf(),
            to <= old(self).text().len(),
        ensures
            final(self).wf(),
            final(self).text() == old(self).text(),
            final(self).begun() == old(self).begun(),
            final(self).position() == to,
    {
        self.pos = to;
    }

    /// Counts one more value as begun, unless as many have been begun as
    /// one reading may begin; says whether it did.
    pub fn begin_value(&mut self) -> (r: bool)
        requires
            old(self).wf(),
        ensures
            final(self).wf(),
            final(self).text() == old(self).text(),
            final(self).position() == old(self).position(),
            r == (old(self).begun() < RECURSIVE_LIMIT),
            r ==> final(self).begun() == old(self).begun() + 1,
            !r ==> final(self).begun() == old(self).begun(),
    {
        if self.recursion_depth >= RECURSIVE_LIMIT {
            false
        } else {
            self.recursion_depth += 1;
            true
        }
    }

    /// Moves the cursor over whitespace.
    pub fn skip_whitespace(&mut self)
        requires
            old(self).wf(),
        ensures
            final(self).wf(),
            final(self).text() == old(self).text(),
            final(self).begun() == old(self).begun(),
            final(self).position() == skip_ws(old(self).text(), old(self).position()),
            0 <= old(self).position() <= final(self).position() <= old(self).text().len(),
    {
        while self.pos < self.chars.len() && is_whitespace_char(self.chars[self.pos])
            invariant
                self.wf(),
                self.source == old(self).source,
                self.recursion_depth == old(self).recursion_depth,
                old(self).pos <= self.pos,
                skip_ws(self.chars@, self.pos as int) == skip_ws(
                    old(self).chars@,
                    old(self).pos as int,
                ),
            decreases self.chars.len() - self.pos,
        {
            self.pos += 1;
        }
    }

    /// The number written by the four hexadecimal digits at `i`.
    fn read_hex4(&self, i: usize) -> (r: Option<u32>)
        requires
            self.wf(),
        ensures
            r == hex4_at(self.text(), i as int),
            r matches Some(u) ==> u <= 0xFFFF && i + 4 <= self.text().len(),
    {
        if self.chars.len() < 4 || i > self.chars.len() - 4 {
            return None;
        }
        let a = hex_of_char(self.chars[i]);
        let b = hex_of_char(self.chars[i + 1]);
        let c = hex_of_char(self.chars[i + 2]);
        let d = hex_of_char(self.chars[i + 3]);
        match (a, b, c, d) {
            (Some(a), Some(b), Some(c), Some(d)) => Some(((a * 16 + b) * 16 + c) * 16 + d),
            _ => None,
        }
    }

    /// The character of the escape at `i`, a position behind a backslash,
    /// and the position behind the escape.
    fn read_escape(&self, i: usize) -> (r: Option<(char, usize)>)
        requires
            self.wf(),
        ensures
            match escape_at(self.text(), i as int) {
                Some((c, j)) => r == Some((c, j as usize)) && i < j <= self.text().len(),
                None => r is None,
            },
    {
        reveal(escape_at);
        if i >= self.chars.len() {
            return None;
        }
        let c = self.chars[i];
        if c == '"' || c == '/' || c == '\\' {
            Some((c, i + 1))
        } else if c == 'n' {
            Some(('\n', i + 1))
        } else if c == 'b' {
            Some(('\x08', i + 1))
        } else if c == 'f' {
            Some(('\x0C', i + 1))
        } else if c == 'r' {
            Some(('\r', i + 1))
        } else if c == 't' {
            Some(('\t', i + 1))
        } else if c == 'u' {
            let u = match self.read_hex4(i + 1) {
                None => {
                    return None;
                },
                Some(u) => u,
            };
            if 0xD800 <= u && u <= 0xDBFF {
                if self.chars.len() - i <= 6 || self.chars[i + 5] != '\\' || self.chars[i + 6]
                    != 'u' {
                    return None;
                }
                let low = match self.read_hex4(i + 7) {
                    None => {
                        return None;
                    },
                    Some(low) => low,
                };
                if low < 0xDC00 || low > 0xDFFF {
                    return None;
                }
                let n: u32 = (u - 0xD800) * 0x400 + (low - 0xDC00) + 0x1_0000;
                match char_from_u32(n) {
                    None => None,
                    Some(c) => Some((c, i + 11)),
                }
            } else {
                match char_from_u32(u) {
                    None => None,
                    Some(c) => Some((c, i + 5)),
                }
            }
        } else {
            None
        }
    }

    /// Reads the string that stands at the cursor. A string without an
    /// escape is handed out as a slice of the text; one with an escape is
    /// built anew.
    pub fn parse_string(&mut self) -> (r: Option<Cow<'a, str>>)
        requires
            old(self).wf(),
        ensures
            final(self).wf(),
            final(self).text() == old(self).text(),
            final(self).begun() == old(self).begun(),
            match string_at(old(self).text(), old(self).position()) {
                Some(lit) => r matches Some(c) && c@ == lit.content && final(self).position()
                    == lit.end && (c is Borrowed <==> !lit.escaped) && old(self).position() + 2
                    <= lit.end,
                None => r is None,
            },
            r matches Some(Cow::Borrowed(slice)) ==> slice@ == old(self).text().subrange(
                old(self).position() + 1,
                final(self).position() - 1,
            ),
    {
        if self.pos >= self.chars.len() || self.chars[self.pos] != '"' {
            return None;
        }
        let ghost s = self.chars@;
        let start: usize = self.pos + 1;
        let mut i: usize = start;
        while i < self.chars.len() && self.chars[i] != '"' && self.chars[i] != '\\'
            invariant
                start <= i <= self.chars.len(),
                self.chars@ == s,
                forall|k: int| start <= k < i ==> s[k] != '"' && s[k] != '\\',
            decreases self.chars.len() - i,
        {
            i += 1;
        }
        proof {
            lemma_plain_run(s, start as int, i as int);
        }
        if i >= self.chars.len() {
            return None;
        }
        if self.chars[i] == '"' {
            let from = self.byte_at(start);
            let to = self.byte_at(i);
            let slice: &'a str = slice_between(
                self.source,
                from,
                to,
                Ghost(start as int),
                Ghost(i as int),
            );
            self.pos = i + 1;
            assert(s.subrange(start as int, i as int) + Seq::<char>::empty() =~= s.subrange(
                start as int,
                i as int,
            ));
            return Some(Cow::Borrowed(slice));
        }
        let mut buf = String::new();
        let mut k: usize = start;
        while k < i
            invariant
                start <= k <= i <= self.chars.len(),
                self.chars@ == s,
                buf@ == s.subrange(start as int, k as int),
            decreases i - k,
        {
            push_char(&mut buf, self.chars[k]);
            assert(s.subrange(start as int, k + 1) =~= s.subrange(start as int, k as int).push(
                s[k as int],
            ));
            k += 1;
        }
        loop
            invariant
                self.wf(),
                self.chars@ == s,
                self.source == old(self).source,
                self.recursion_depth == old(self).recursion_depth,
                self.pos == old(self).pos,
                old(self).wf(),
                old(self).chars@ == s,
                start == old(self).pos + 1,
                s[old(self).pos as int] == '"',
                start <= i <= self.chars.len(),
                string_tail(s, start as int) == with_prefix(buf@, string_tail(s, i as int), true),
            decreases self.chars.len() - i,
        {
            if i >= self.chars.len() {
                return None;
            }
            let c = self.chars[i];
            if c == '"' {
                self.pos = i + 1;
                assert(buf@ + Seq::<char>::empty() =~= buf@);
                return Some(Cow::Owned(buf));
            } else if c == '\\' {
                match self.read_escape(i + 1) {
                    None => {
                        return None;
                    },
                    Some((e, j)) => {
                        let ghost before = buf@;
                        push_char(&mut buf, e);
                        proof {
                            match string_tail(s, j as int) {
                                None => {},
                                Some(rest) => {
                                    assert(before + (seq![e] + rest.content) =~= buf@
                                        + rest.content);
                                },
                            }
                        }
                        i = j;
                    },
                }
            } else {
                let ghost before = buf@;
                push_char(&mut buf, c);
                proof {
                    match string_tail(s, i + 1) {
                        None => {},
                        Some(rest) => {
                            assert(before + (seq![c] + rest.content) =~= buf@ + rest.content);
                        },
                    }
                }
                i += 1;
            }
        }
    }

    /// Moves the cursor over decimal digits and appends their values to `out`.
    fn read_digits(&mut self, out: &mut Vec<u8>)
        requires
            old(self).wf(),
        ensures
            final(self).wf(),
            final(self).text() == old(self).text(),
            final(self).begun() == old(self).begun(),
            final(self).position() == digits_end(old(self).text(), old(self).position()),
            old(self).position() <= final(self).position(),
            final(out)@ == old(out)@ + digits_between(
                old(self).text(),
                old(self).position(),
                final(self).position(),
            ),
            all_digits(old(out)@) ==> all_digits(final(out)@),
    {
        let ghost s = self.chars@;
        let ghost from = self.pos as int;
        while self.pos < self.chars.len() && is_digit_char(self.chars[self.pos])
            invariant
                self.wf(),
                self.chars@ == s,
                self.source == old(self).source,
                self.recursion_depth == old(self).recursion_depth,
                from == old(self).pos,
                from <= self.pos,
                digits_end(s, self.pos as int) == digits_end(s, from),
                out@ == old(out)@ + digits_between(s, from, self.pos as int),
                all_digits(old(out)@) ==> all_digits(out@),
            decreases self.chars.len() - self.pos,
        {
            let d = digit_of_char(self.chars[self.pos]);
            out.push(d);
            self.pos += 1;
            assert(out@ =~= old(out)@ + digits_between(s, from, self.pos as int));
        }
        assert(out@ =~= old(out)@ + digits_between(s, from, self.pos as int));
    }

    /// Reads a run of digits as an integer part: a zero alone, or a digit
    /// that is not zero with all the digits that follow it.
    fn read_integer(&mut self) -> (r: Option<Vec<u8>>)
        requires
            old(self).wf(),
        ensures
            final(self).wf(),
            final(self).text() == old(self).text(),
            final(self).begun() == old(self).begun(),
            match integer_end(old(self).text(), old(self).position()) {
                Some(e) => r matches Some(d) && d@ == digits_between(
                    old(self).text(),
                    old(self).position(),
                    e,
                ) && final(self).position() == e && e > old(self).position() && is_canonical(d@),
                None => r is None,
            },
    {
        if self.pos >= self.chars.len() {
            return None;
        }
        let c = self.chars[self.pos];
        let mut digits: Vec<u8> = Vec::new();
        if c == '0' {
            digits.push(0);
            self.pos += 1;
            assert(digits@ =~= digits_between(self.chars@, old(self).pos as int, self.pos as int));
            Some(digits)
        } else if is_digit_char(c) {
            self.read_digits(&mut digits);
            proof {
                lemma_digits_end(self.chars@, old(self).pos + 1);
            }
            assert(digits@ =~= digits_between(self.chars@, old(self).pos as int, self.pos as int));
            assert(digits@[0] == digit_value(c));
            Some(digits)
        } else {
            None
        }
    }

    /// Reads the number that stands at the cursor.
    pub fn parse_number(&mut self) -> (r: Option<Number>)
        requires
            old(self).wf(),
        ensures
            final(self).wf(),
            final(self).text() == old(self).text(),
            final(self).begun() == old(self).begun(),
            match number_at(old(self).text(), old(self).position()) {
                Some((number, end)) => r matches Some(n) && n@ == number && n.wf()
                    && final(self).position() == end && end > old(self).position(),
                None => r is None,
            },
    {
        let ghost s = self.chars@;
        let negative = self.pos < self.chars.len() && self.chars[self.pos] == '-';
        if negative {
            self.pos += 1;
        }
        let integer = match self.read_integer() {
            None => {
                return None;
            },
            Some(d) => d,
        };
        let mut fraction: Vec<u8> = Vec::new();
        if self.pos < self.chars.len() && self.chars[self.pos] == '.' {
            self.pos += 1;
            self.read_digits(&mut fraction);
            assert(fraction@ =~= digits_between(s, self.pos - fraction@.len(), self.pos as int));
        }
        assert(fraction@ =~= Seq::<u8>::empty() || self.pos > 0);
        let mut exponent_negative = false;
        let mut exponent: Vec<u8> = Vec::new();
        if self.pos < self.chars.len() && (self.chars[self.pos] == 'e' || self.chars[self.pos]
            == 'E') {
            self.pos += 1;
            if self.pos >= self.chars.len() {
                return None;
            }
            let sign = self.chars[self.pos];
            if sign == '-' {
                exponent_negative = true;
                self.pos += 1;
            } else if sign == '+' {
                self.pos += 1;
            }
            exponent =
            match self.read_integer() {
                None => {
                    return None;
                },
                Some(d) => d,
            };
        }
        Some(Number { negative, integer, fraction, exponent_negative, exponent })
    }

    /// Reads the members of an object up to its closing brace, the cursor
    /// standing behind the opening brace.
    pub fn parse_object(&mut self) -> (r: Option<Vec<(Cow<'a, str>, Value<'a>)>>)
        requires
            old(self).wf(),
        ensures
            final(self).wf(),
            final(self).text() == old(self).text(),
            match members_at(
                old(self).text(),
                old(self).position(),
                old(self).begun(),
                Seq::empty(),
            ) {
                Some((members, end, n)) => r matches Some(m) && members_model(m@) == members
                    && final(self).position() == end && final(self).begun() == n && end > old(
                    self,
                ).position(),
                None => r is None,
            },
            no_backslash(old(self).text()) ==> (r matches Some(m) ==> members_borrow(m@)),
        decreases old(self).text().len() - old(self).position(), 1nat,
    {
        let ghost s = self.chars@;
        let mut members: Vec<(Cow<'a, str>, Value<'a>)> = Vec::new();
        assert(members_model(members@) =~= Seq::empty());
        loop
            invariant
                self.wf(),
                old(self).wf(),
                self.chars@ == s,
                self.source@ == old(self).source@,
                old(self).pos <= self.pos,
                no_backslash(s) ==> members_borrow(members@),
                members_at(s, old(self).pos as int, old(self).recursion_depth as nat, Seq::empty())
                    == members_at(
                    s,
                    self.pos as int,
                    self.recursion_depth as nat,
                    members_model(members@),
                ),
            decreases self.chars.len() - self.pos,
        {
            let ghost i = self.pos as int;
            self.skip_whitespace();
            if self.pos >= self.chars.len() {
                return None;
            }
            let c = self.chars[self.pos];
            if c == '}' {
                self.pos += 1;
                return Some(members);
            }
            if c == ',' {
                self.pos += 1;
            }
            self.skip_whitespace();
            proof {
                if no_backslash(s) {
                    lemma_no_backslash(s, self.pos + 1);
                }
            }
            let key = match self.parse_string() {
                None => {
                    return None;
                },
                Some(key) => key,
            };
            self.skip_whitespace();
            if self.pos >= self.chars.len() || self.chars[self.pos] != ':' {
                return None;
            }
            self.pos += 1;
            let value = match self.parse_value() {
                None => {
                    return None;
                },
                Some(value) => value,
            };
            insert_member(&mut members, key, value);
        }
    }

    /// Reads the elements of an array up to its closing bracket, the cursor
    /// standing behind the opening bracket.
    pub fn parse_array(&mut self) -> (r: Option<Vec<Value<'a>>>)
        requires
            old(self).wf(),
        ensures
            final(self).wf(),
            final(self).text() == old(self).text(),
            match items_at(old(self).text(), old(self).position(), old(self).begun(), Seq::empty()) {
                Some((items, end, n)) => r matches Some(v) && values_model(v@) == items
                    && final(self).position() == end && final(self).begun() == n && end > old(
                    self,
                ).position(),
                None => r is None,
            },
            no_backslash(old(self).text()) ==> (r matches Some(v) ==> values_borrow(v@)),
        decreases old(self).text().len() - old(self).position(), 1nat,
    {
        let ghost s = self.chars@;
        let mut values: Vec<Value<'a>> = Vec::new();
        assert(values_model(values@) =~= Seq::empty());
        loop
            invariant
                self.wf(),
                old(self).wf(),
                self.chars@ == s,
                self.source@ == old(self).source@,
                old(self).pos <= self.pos,
                no_backslash(s) ==> values_borrow(values@),
                items_at(s, old(self).pos as int, old(self).recursion_depth as nat, Seq::empty())
                    == items_at(
                    s,
                    self.pos as int,
                    self.recursion_depth as nat,
                    values_model(values@),
                ),
            decreases self.chars.len() - self.pos,
        {
            self.skip_whitespace();
            if self.pos >= self.chars.len() {
                return None;
            }
            let c = self.chars[self.pos];
            if c == ']' {
                self.pos += 1;
                return Some(values);
            }
            if c == ',' {
                self.pos += 1;
            }
            let value = match self.parse_value() {
                None => {
                    return None;
                },
                Some(value) => value,
            };
            let ghost before = values_model(values@);
            values.push(value);
            assert(values_model(values@) =~= before.push(value@));
        }
    }

    /// Reads the value that stands at or behind the cursor. Fails, whatever
    /// the text, once the reading has begun as many values as it may.
    pub fn parse_value(&mut self) -> (r: Option<Value<'a>>)
        requires
            old(self).wf(),
        ensures
            final(self).wf(),
            final(self).text() == old(self).text(),
            match value_at(old(self).text(), old(self).position(), old(self).begun()) {
                Some((value, end, n)) => r matches Some(v) && v@ == value && final(self).position()
                    == end && final(self).begun() == n && end > old(self).position(),
                None => r is None,
            },
            old(self).begun() >= RECURSIVE_LIMIT ==> r is None,
            no_backslash(old(self).text()) ==> (r matches Some(v) ==> v.borrows()),
        decreases old(self).text().len() - old(self).position(), 0nat,
    {
        if self.recursion_depth >= RECURSIVE_LIMIT {
            return None;
        }
        self.recursion_depth += 1;
        self.skip_whitespace();
        if self.pos >= self.chars.len() {
            return None;
        }
        let c = self.chars[self.pos];
        if c == '{' {
            self.pos += 1;
            match self.parse_object() {
                None => None,
                Some(members) => {
                    let v = Value::Object(members);
                    assert(v@->Object_0 =~= members_model(members@));
                    Some(v)
                },
            }
        } else if c == '[' {
            self.pos += 1;
            match self.parse_array() {
                None => None,
                Some(values) => {
                    let v = Value::Array(values);
                    assert(v@->Array_0 =~= values_model(values@));
                    Some(v)
                },
            }
        } else if c == '"' {
            proof {
                if no_backslash(self.chars@) {
                    lemma_no_backslash(self.chars@, self.pos + 1);
                }
            }
            match self.parse_string() {
                None => None,
                Some(text) => Some(Value::String(text)),
            }
        } else if c == 't' {
            if self.chars.len() - self.pos < 4 {
                return None;
            }
            self.pos += 4;
            Some(Value::Boolean(true))
        } else if c == 'f' {
            if self.chars.len() - self.pos < 5 {
                return None;
            }
            self.pos += 5;
            Some(Value::Boolean(false))
        } else if c == 'n' {
            if self.chars.len() - self.pos < 4 {
                return None;
            }
            self.pos += 4;
            Some(Value::Null)
        } else if c == '-' || is_digit_char(c) {
            match self.parse_number() {
                None => None,
                Some(number) => Some(Value::Number(number)),
            }
        } else {
            None
        }
    }
}

/// Reads the first value of `source`. Texts the value holds that stand in
/// `source` as they are, are slices of it.
pub fn from_str<'a>(source: &'a str) -> (r: Option<Value<'a>>)
    ensures
        match parse(source@) {
            Some(value) => r matches Some(v) && v@ == value,
            None => r is None,
        },
        no_backslash(source@) ==> (r matches Some(v) ==> v.borrows()),
{
    let mut parser = Parser::new(source);
    parser.parse_value()
}

} // verus!
