//! The JSON that messages are written in.
use crate::hex::digit;
use crate::hex::hex_digit;
use crate::hex::hex_value;
use crate::hex::value_of;
use crate::text::chars_of;
use crate::text::decimal;
use crate::text::is_digit;
use crate::text::join;
use crate::text::law_decimal_round_trip;
use vstd::prelude::*;

verus! {

/// `char::from_u32` gives the character with the code `i`, exactly if `i` is the code of a
/// character: neither a surrogate nor beyond the last code there is.
pub assume_specification[ char::from_u32 ](i: u32) -> (r: Option<char>)
    ensures
        match r {
            Some(c) => c as int == i,
            None => 0xD800 <= i <= 0xDFFF || i > 0x10FFFF,
        },
;

// Escapes

/// `c` cannot stand in a string as it is: it is a quotation mark, a backslash or a control
/// character.
pub open spec fn is_special(c: char) -> bool {
    c == '"' || c == '\\' || (c as int) < 0x20
}

/// How `c` is written in a string.
pub open spec fn escape_of(c: char) -> Seq<char> {
    if is_special(c) {
        seq!['\\', 'u', '0', '0', hex_digit(c as int / 16), hex_digit(c as int % 16)]
    } else {
        seq![c]
    }
}

/// How `s` is written in a string.
pub open spec fn escaped(s: Seq<char>) -> Seq<char>
    decreases s.len(),
{
    if s.len() == 0 {
        Seq::empty()
    } else {
        escape_of(s[0]) + escaped(s.drop_first())
    }
}

/// The code that stands at the start of `s` as a backslash, the letter `u`, and four hexadecimal
/// digits, if one does.
pub open spec fn code_at_start(s: Seq<char>) -> Option<int> {
    if s.len() < 6 || s[0] != '\\' || s[1] != 'u' {
        None
    } else {
        match (hex_value(s[2]), hex_value(s[3]), hex_value(s[4]), hex_value(s[5])) {
            (Some(a), Some(b), Some(c), Some(d)) => Some(4096 * a + 256 * b + 16 * c + d),
            _ => None,
        }
    }
}

/// The character that a backslash and `letter` stand for, if they do.
pub open spec fn short_escape(letter: char) -> Option<char> {
    if letter == '"' || letter == '\\' || letter == '/' {
        Some(letter)
    } else if letter == 'b' {
        Some('\u{8}')
    } else if letter == 'f' {
        Some('\u{c}')
    } else if letter == 'n' {
        Some('\n')
    } else if letter == 'r' {
        Some('\r')
    } else if letter == 't' {
        Some('\t')
    } else {
        None
    }
}

/// The character that the code `first` stands for, or the two codes `first` and `second` together
/// where they are a surrogate pair, and how many codes these are.
pub open spec fn char_of_codes(first: int, second: Option<int>) -> Option<(char, int)> {
    if 0xD800 <= first <= 0xDBFF {
        match second {
            Some(low) => if 0xDC00 <= low <= 0xDFFF {
                Some(((0x10000 + 0x400 * (first - 0xD800) + (low - 0xDC00)) as char, 2))
            } else {
                None
            },
            None => None,
        }
    } else if 0xDC00 <= first <= 0xDFFF {
        None
    } else {
        Some((first as char, 1))
    }
}

/// The character that the escape at the start of `s` stands for, and how long the escape is, if one
/// stands there: a backslash with one of the letters that have a meaning, or a code, or two codes
/// that are a surrogate pair.
pub open spec fn escape_at_start(s: Seq<char>) -> Option<(char, int)> {
    if s.len() < 2 || s[0] != '\\' {
        None
    } else {
        match short_escape(s[1]) {
            Some(c) => Some((c, 2)),
            None => match code_at_start(s) {
                Some(first) => match char_of_codes(first, code_at_start(s.skip(6))) {
                    Some((c, n)) => Some((c, 6 * n)),
                    None => None,
                },
                None => None,
            },
        }
    }
}

/// What a string says: each escape is the character that it stands for, and everything else, a
/// backslash that starts no escape too, is itself.
pub open spec fn unescaped(s: Seq<char>) -> Seq<char>
    decreases s.len(),
{
    if s.len() == 0 {
        Seq::empty()
    } else {
        match escape_at_start(s) {
            Some((c, n)) => seq![c] + unescaped(s.skip(n)),
            None => seq![s[0]] + unescaped(s.drop_first()),
        }
    }
}

/// Where the string that starts at `from` ends: at the first quotation mark that no backslash
/// escapes; at the length of `s` where there is none.
pub open spec fn string_end(s: Seq<char>, from: int) -> int
    decreases s.len() - from,
{
    if from < 0 || from >= s.len() {
        s.len() as int
    } else if s[from] == '"' {
        from
    } else if s[from] == '\\' && from + 1 < s.len() {
        string_end(s, from + 2)
    } else {
        string_end(s, from + 1)
    }
}

/// An escape ends in two hexadecimal digits.
proof fn lemma_escape_digits(c: char)
    requires
        is_special(c),
    ensures
        hex_value(hex_digit(c as int / 16)) == Some(c as int / 16),
        hex_value(hex_digit(c as int % 16)) == Some(c as int % 16),
{
}

/// The escape of a character stands for it.
proof fn lemma_escape_read(c: char, rest: Seq<char>)
    requires
        is_special(c),
    ensures
        escape_at_start(escape_of(c) + rest) == Some((c, 6int)),
        code_at_start(escape_of(c) + rest) is Some,
        (escape_of(c) + rest).skip(6) == rest,
{
    let s = escape_of(c) + rest;
    let h = c as int / 16;
    let l = c as int % 16;
    lemma_escape_digits(c);
    assert(s[2] == '0' && s[3] == '0' && hex_value('0') == Some(0int));
    assert(s[4] == hex_digit(h) && s[5] == hex_digit(l));
    assert(s.skip(6) =~= rest);
}

/// What is written in a string is what the string says, whatever it is.
pub proof fn law_escape_round_trip(s: Seq<char>)
    ensures
        unescaped(escaped(s)) == s,
    decreases s.len(),
{
    if s.len() > 0 {
        let rest = s.drop_first();
        law_escape_round_trip(rest);
        let t = escape_of(s[0]) + escaped(rest);
        if is_special(s[0]) {
            lemma_escape_read(s[0], escaped(rest));
        } else {
            assert(t[0] == s[0]);
            assert(t.drop_first() =~= escaped(rest));
        }
        assert(seq![s[0]] + rest =~= s);
    } else {
        assert(unescaped(escaped(s)) =~= s);
    }
}

/// A string that was escaped ends where it was ended.
pub proof fn lemma_escaped_ends(s: Seq<char>, from: int, name: Seq<char>)
    requires
        0 <= from,
        from + escaped(name).len() < s.len(),
        s.subrange(from, from + escaped(name).len()) == escaped(name),
        s[from + escaped(name).len()] == '"',
    ensures
        string_end(s, from) == from + escaped(name).len(),
    decreases name.len(),
{
    let all = escaped(name);
    if name.len() > 0 {
        let first = escape_of(name[0]);
        let rest = escaped(name.drop_first());
        let n = first.len() as int;
        let cut = s.subrange(from, from + all.len());
        assert forall|k: int| 0 <= k < n implies s[from + k] == #[trigger] first[k] by {
            assert(cut[k] == s[from + k] && all[k] == first[k]);
        }
        assert(s.subrange(from + n, from + n + rest.len()) =~= rest) by {
            assert forall|k: int| 0 <= k < rest.len() implies s[from + n + k] == rest[k] by {
                assert(cut[n + k] == s[from + n + k] && all[n + k] == rest[k]);
            }
        }
        lemma_escaped_ends(s, from + n, name.drop_first());
        if is_special(name[0]) {
            lemma_escape_digits(name[0]);
            assert(s[from] == first[0] && s[from + 2] == first[2] && s[from + 3] == first[3]);
            assert(s[from + 4] == first[4] && s[from + 5] == first[5]);
            assert(string_end(s, from) == string_end(s, from + 2));
            assert(string_end(s, from + 2) == string_end(s, from + 3));
            assert(string_end(s, from + 3) == string_end(s, from + 4));
            assert(string_end(s, from + 4) == string_end(s, from + 5));
            assert(string_end(s, from + 5) == string_end(s, from + 6));
        } else {
            assert(s[from] == first[0]);
        }
    }
}

/// Appends `c` as it is written in a string.
fn push_escape(out: &mut String, c: char)
    ensures
        final(out)@ == old(out)@ + escape_of(c),
{
    let code: u32 = c as u32;
    if c == '"' || c == '\\' || code < 0x20 {
        out.push('\\');
        out.push('u');
        out.push('0');
        out.push('0');
        out.push(digit((code / 16) as u8));
        out.push(digit((code % 16) as u8));
    } else {
        out.push(c);
    }
    assert(out@ =~= old(out)@ + escape_of(c));
}

/// Appends `s` as it is written in a string.
pub fn push_escaped(out: &mut String, s: &str)
    ensures
        final(out)@ == old(out)@ + escaped(s@),
{
    let text: Vec<char> = chars_of(s);
    let mut i: usize = 0;
    assert(text@.skip(0) =~= text@);
    while i < text.len()
        invariant
            text@ == s@,
            i <= text@.len(),
            old(out)@ + escaped(s@) == out@ + escaped(text@.skip(i as int)),
        decreases text@.len() - i,
    {
        let ghost before = out@;
        let ghost rest = text@.skip(i as int);
        push_escape(out, text[i]);
        i = i + 1;
        proof {
            assert(rest.drop_first() =~= text@.skip(i as int));
            assert(out@ + escaped(text@.skip(i as int)) =~= before + escaped(rest));
        }
    }
    assert(text@.skip(i as int) =~= Seq::<char>::empty());
    assert(out@ + escaped(text@.skip(i as int)) =~= out@);
}

/// A character is the one with its code.
proof fn lemma_char_of_code(c: char)
    ensures
        (c as int) as char == c,
        !(0xD800 <= c as int <= 0xDFFF),
{
}

/// Reads the code that stands in `text` at `i` as a backslash, the letter `u`, and four hexadecimal
/// digits, if one does.
fn code_at(text: &Vec<char>, i: usize) -> (r: Option<u32>)
    requires
        i <= text@.len(),
    ensures
        match r {
            Some(code) => code <= 0xFFFF && code_at_start(text@.skip(i as int)) == Some(
                code as int,
            ),
            None => code_at_start(text@.skip(i as int)) is None,
        },
{
    let ghost s = text@.skip(i as int);
    assert(forall|k: int| 0 <= k < s.len() ==> #[trigger] s[k] == text@[i + k]);
    if text.len() - i < 6 || text[i] != '\\' || text[i + 1] != 'u' {
        return None;
    }
    match (
        value_of(text[i + 2]),
        value_of(text[i + 3]),
        value_of(text[i + 4]),
        value_of(text[i + 5]),
    ) {
        (Some(a), Some(b), Some(c), Some(d)) => {
            let code: u32 = 4096 * (a as u32) + 256 * (b as u32) + 16 * (c as u32) + d as u32;
            assert(code_at_start(s) == Some(code as int));
            Some(code)
        },
        _ => None,
    }
}

/// The character that a backslash and `letter` stand for, if they do.
fn short_escape_of(letter: char) -> (r: Option<char>)
    ensures
        r == short_escape(letter),
{
    match letter {
        '"' => Some('"'),
        '\\' => Some('\\'),
        '/' => Some('/'),
        'b' => Some('\u{8}'),
        'f' => Some('\u{c}'),
        'n' => Some('\n'),
        'r' => Some('\r'),
        't' => Some('\t'),
        _ => None,
    }
}

/// The character that the code `first` stands for, or the two codes together where they are a
/// surrogate pair, and how many codes these are.
fn char_of(first: u32, second: Option<u32>) -> (r: Option<(char, usize)>)
    requires
        first <= 0xFFFF,
    ensures
        ({
            let expected = char_of_codes(
                first as int,
                match second {
                    Some(low) => Some(low as int),
                    None => None,
                },
            );
            match r {
                Some((c, n)) => n <= 2 && expected == Some((c, n as int)),
                None => expected is None,
            }
        }),
{
    let (code, n): (u32, usize) = match second {
        Some(low) if 0xD800 <= first && first <= 0xDBFF && 0xDC00 <= low && low <= 0xDFFF => (
            0x10000 + 0x400 * (first - 0xD800) + (low - 0xDC00),
            2,
        ),
        _ => (first, 1),
    };
    match char::from_u32(code) {
        Some(c) => {
            proof {
                lemma_char_of_code(c);
            }
            Some((c, n))
        },
        None => None,
    }
}

/// Reads the escape that stands in `text` at `i`, if one does, and how long it is.
fn escape_at(text: &Vec<char>, i: usize) -> (r: Option<(char, usize)>)
    requires
        i < text@.len(),
    ensures
        match r {
            Some((c, n)) => {
                &&& escape_at_start(text@.skip(i as int)) == Some((c, n as int))
                &&& 0 < n <= text@.len() - i
            },
            None => escape_at_start(text@.skip(i as int)) is None,
        },
{
    let ghost s = text@.skip(i as int);
    assert(forall|k: int| 0 <= k < s.len() ==> #[trigger] s[k] == text@[i + k]);
    if text.len() - i < 2 || text[i] != '\\' {
        return None;
    }
    match short_escape_of(text[i + 1]) {
        Some(c) => Some((c, 2)),
        None => match code_at(text, i) {
            None => None,
            Some(first) => {
                assert(s.skip(6) =~= text@.skip(i + 6));
                match char_of(first, code_at(text, i + 6)) {
                    Some((c, n)) => Some((c, 6 * n)),
                    None => None,
                }
            },
        },
    }
}

/// Reads what a string says.
pub fn unescape(s: &String) -> (r: String)
    ensures
        r@ == unescaped(s@),
{
    let text: Vec<char> = chars_of(s.as_str());
    let mut r: String = String::new();
    let mut i: usize = 0;
    assert(text@.skip(0) =~= text@);
    assert(r@ + unescaped(text@) =~= unescaped(text@));
    while i < text.len()
        invariant
            text@ == s@,
            i <= text@.len(),
            unescaped(s@) == r@ + unescaped(text@.skip(i as int)),
        decreases text@.len() - i,
    {
        let ghost before = r@;
        let ghost rest = text@.skip(i as int);
        assert(rest[0] == text@[i as int]);
        match escape_at(&text, i) {
            Some((c, n)) => {
                r.push(c);
                i = i + n;
                assert(rest.skip(n as int) =~= text@.skip(i as int));
            },
            None => {
                r.push(text[i]);
                i = i + 1;
                assert(rest.drop_first() =~= text@.skip(i as int));
            },
        }
        assert(r@ + unescaped(text@.skip(i as int)) =~= before + unescaped(rest));
    }
    assert(text@.skip(i as int) =~= Seq::<char>::empty());
    assert(r@ + unescaped(text@.skip(i as int)) =~= r@);
    r
}

/// Finds where the string that starts at `from` ends.
pub fn find_string_end(s: &Vec<char>, from: usize) -> (r: usize)
    requires
        from <= s@.len(),
    ensures
        from <= r <= s@.len(),
        r == string_end(s@, from as int),
{
    let n: usize = s.len();
    let mut i: usize = from;
    while i < n && s[i] != '"'
        invariant
            from <= i <= n == s@.len(),
            string_end(s@, from as int) == string_end(s@, i as int),
        decreases n - i,
    {
        if s[i] == '\\' && n - i >= 2 {
            i = i + 2;
        } else {
            i = i + 1;
        }
    }
    i
}

// Objects

/// `s` can stand between the quotation marks of a string: it holds neither a quotation mark nor a
/// control character, and a backslash only where it starts an escape of four hexadecimal digits.
pub open spec fn is_string_body(s: Seq<char>) -> bool
    decreases s.len(),
{
    if s.len() == 0 {
        true
    } else if s[0] == '\\' {
        code_at_start(s) is Some && is_string_body(s.skip(6))
    } else {
        !is_special(s[0]) && is_string_body(s.drop_first())
    }
}

/// All characters of `s` are decimal digits.
pub open spec fn are_digits(s: Seq<char>) -> bool {
    forall|i: int| 0 <= i < s.len() ==> is_digit(#[trigger] s[i])
}

/// `s` is the integer part of a number: digits, without a zero that leads.
pub open spec fn is_integer(s: Seq<char>) -> bool {
    s.len() > 0 && are_digits(s) && (s[0] == '0' ==> s.len() == 1)
}

/// `s` is the fraction of a number, or nothing.
pub open spec fn is_fraction(s: Seq<char>) -> bool {
    s.len() > 0 ==> s[0] == '.' && s.len() > 1 && are_digits(s.drop_first())
}

/// `s` is the exponent of a number, or nothing.
pub open spec fn is_exponent(s: Seq<char>) -> bool {
    s.len() > 0 ==> {
        let digits = if s.len() > 1 && (s[1] == '+' || s[1] == '-') {
            s.skip(2)
        } else {
            s.skip(1)
        };
        (s[0] == 'e' || s[0] == 'E') && digits.len() > 0 && are_digits(digits)
    }
}

/// `s` falls into an integer part up to `i`, a fraction up to `j`, and an exponent.
pub open spec fn splits_at(s: Seq<char>, i: int, j: int) -> bool {
    &&& 0 <= i <= j <= s.len()
    &&& is_integer(s.take(i))
    &&& is_fraction(s.subrange(i, j))
    &&& is_exponent(s.skip(j))
}

/// `s` without the minus sign that may lead it.
pub open spec fn without_sign(s: Seq<char>) -> Seq<char> {
    if s.len() > 0 && s[0] == '-' {
        s.drop_first()
    } else {
        s
    }
}

/// `s` is a number.
pub open spec fn is_number(s: Seq<char>) -> bool {
    exists|i: int, j: int| splits_at(without_sign(s), i, j)
}

/// A value: a number, a string, or a list of numbers.
pub enum Value {
    /// A number, by its text.
    Number(Seq<char>),
    /// A string, by what stands between its quotation marks.
    Text(Seq<char>),
    /// A list of numbers, by their texts.
    Numbers(Seq<Seq<char>>),
}

/// The text of a value.
pub open spec fn value_text(value: Value) -> Seq<char> {
    match value {
        Value::Number(text) => text,
        Value::Text(body) => seq!['"'] + body + seq!['"'],
        Value::Numbers(list) => seq!['['] + join(list) + seq![']'],
    }
}

/// The parts of a value are what they are meant to be.
pub open spec fn is_value(value: Value) -> bool {
    match value {
        Value::Number(text) => is_number(text),
        Value::Text(body) => is_string_body(body),
        Value::Numbers(list) => forall|i: int|
            0 <= i < list.len() ==> is_number(#[trigger] list[i]),
    }
}

/// The texts of the members of an object, each a name and a value.
pub open spec fn member_texts(members: Seq<(Seq<char>, Value)>) -> Seq<Seq<char>> {
    members.map_values(
        |m: (Seq<char>, Value)| seq!['"'] + m.0 + seq!['"', ':'] + value_text(m.1),
    )
}

/// The text of an object.
pub open spec fn object_text(members: Seq<(Seq<char>, Value)>) -> Seq<char> {
    seq!['{'] + join(member_texts(members)) + seq!['}']
}

/// The members make up an object: their names are strings, and their values are values.
pub open spec fn is_object(members: Seq<(Seq<char>, Value)>) -> bool {
    forall|i: int|
        0 <= i < members.len() ==> is_string_body((#[trigger] members[i]).0) && is_value(
            members[i].1,
        )
}

/// Whatever is escaped can stand in a string.
pub proof fn lemma_escaped_is_body(s: Seq<char>)
    ensures
        is_string_body(escaped(s)),
    decreases s.len(),
{
    if s.len() > 0 {
        let rest = s.drop_first();
        lemma_escaped_is_body(rest);
        let t = escape_of(s[0]) + escaped(rest);
        if is_special(s[0]) {
            lemma_escape_read(s[0], escaped(rest));
        } else {
            assert(t[0] == s[0]);
            assert(t.drop_first() =~= escaped(rest));
        }
    }
}

/// What needs no escape can stand in a string.
pub proof fn lemma_plain_is_body(s: Seq<char>)
    requires
        forall|i: int| 0 <= i < s.len() ==> !is_special(#[trigger] s[i]),
    ensures
        is_string_body(s),
    decreases s.len(),
{
    if s.len() > 0 {
        let rest = s.drop_first();
        assert forall|i: int| 0 <= i < rest.len() implies !is_special(#[trigger] rest[i]) by {
            assert(rest[i] == s[i + 1]);
        }
        lemma_plain_is_body(rest);
        assert(!is_special(s[0]));
    }
}

/// What can stand in a string holds no quotation mark.
pub proof fn lemma_body_is_unquoted(s: Seq<char>)
    requires
        is_string_body(s),
    ensures
        forall|i: int| 0 <= i < s.len() ==> #[trigger] s[i] != '"',
    decreases s.len(),
{
    if s.len() > 0 {
        if s[0] == '\\' {
            lemma_body_is_unquoted(s.skip(6));
            assert forall|i: int| 0 <= i < s.len() implies #[trigger] s[i] != '"' by {
                if i >= 6 {
                    assert(s[i] == s.skip(6)[i - 6]);
                }
            }
        } else {
            lemma_body_is_unquoted(s.drop_first());
            assert forall|i: int| 0 <= i < s.len() implies #[trigger] s[i] != '"' by {
                if i >= 1 {
                    assert(s[i] == s.drop_first()[i - 1]);
                }
            }
        }
    }
}

/// No zero leads a decimal text.
proof fn lemma_decimal_leads(n: nat)
    requires
        n > 0,
    ensures
        decimal(n).len() > 0,
        decimal(n)[0] != '0',
    decreases n,
{
    if n >= 10 {
        lemma_decimal_leads(n / 10);
    }
}

/// The decimal text of a count is a number.
pub proof fn lemma_decimal_is_number(n: nat)
    ensures
        is_number(decimal(n)),
{
    let s = decimal(n);
    law_decimal_round_trip(n);
    if n > 0 {
        lemma_decimal_leads(n);
    }
    assert(is_digit(s[0]));
    let k = s.len() as int;
    assert(s.take(k) =~= s);
    assert(splits_at(without_sign(s), k, k));
}

} // verus!
