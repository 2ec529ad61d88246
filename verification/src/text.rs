//! Character sequences: searching, slicing, splitting, and decimal numbers.
use vstd::prelude::*;

verus! {

/// `String::push` appends one character to the end of the string.
pub assume_specification[ String::push ](s: &mut String, c: char)
    ensures
        final(s)@ == old(s)@.push(c),
;

/// The characters of a string, one by one.
pub fn chars_of(s: &str) -> (r: Vec<char>)
    ensures
        r@ == s@,
{
    let mut r: Vec<char> = Vec::new();
    for c in it: s.chars()
        invariant
            r@ == it.seq().take(it.index() as int),
    {
        r.push(c);
    }
    r
}

/// The characters of `s` from `from` up to `to`, as a string.
pub fn string_between(s: &Vec<char>, from: usize, to: usize) -> (r: String)
    requires
        from <= to <= s@.len(),
    ensures
        r@ == s@.subrange(from as int, to as int),
{
    let mut r: String = String::new();
    let mut i: usize = from;
    while i < to
        invariant
            from <= i <= to <= s@.len(),
            r@ == s@.subrange(from as int, i as int),
        decreases to - i,
    {
        r.push(s[i]);
        i = i + 1;
        assert(r@ == s@.subrange(from as int, i as int));
    }
    r
}

// Searching

/// `key` stands in `s` at position `i`.
pub open spec fn occurs_at(s: Seq<char>, key: Seq<char>, i: int) -> bool {
    0 <= i && i + key.len() <= s.len() && s.subrange(i, i + key.len()) == key
}

/// `i` is the first position at which `key` stands in `s`.
pub open spec fn occurs_first_at(s: Seq<char>, key: Seq<char>, i: int) -> bool {
    occurs_at(s, key, i) && forall|j: int| 0 <= j < i ==> !#[trigger] occurs_at(s, key, j)
}

/// The first position at which `key` stands in `s`, if it does.
pub open spec fn first_occurrence(s: Seq<char>, key: Seq<char>) -> Option<int> {
    if exists|i: int| occurs_first_at(s, key, i) {
        Some(choose|i: int| occurs_first_at(s, key, i))
    } else {
        None
    }
}

/// There is only one first position.
pub proof fn lemma_first_occurrence_is(s: Seq<char>, key: Seq<char>, i: int)
    requires
        occurs_first_at(s, key, i),
    ensures
        first_occurrence(s, key) == Some(i),
{
    let j = first_occurrence(s, key).unwrap();
    assert(occurs_first_at(s, key, j));
    if j < i {
        assert(!occurs_at(s, key, j));
    } else if i < j {
        assert(!occurs_at(s, key, i));
    }
}

/// Tells whether `key` stands in `s` at position `i`.
fn stands_at(s: &Vec<char>, key: &Vec<char>, i: usize) -> (r: bool)
    requires
        i <= s@.len(),
    ensures
        r == occurs_at(s@, key@, i as int),
{
    let n: usize = s.len();
    if key.len() > n - i {
        return false;
    }
    let mut k: usize = 0;
    while k < key.len()
        invariant
            i + key@.len() <= n == s@.len(),
            k <= key@.len(),
            forall|j: int| 0 <= j < k ==> s@[i + j] == #[trigger] key@[j],
        decreases key@.len() - k,
    {
        if s[i + k] != key[k] {
            assert(s@.subrange(i as int, i + key@.len())[k as int] != key@[k as int]);
            return false;
        }
        k = k + 1;
    }
    assert(s@.subrange(i as int, i + key@.len()) =~= key@);
    true
}

/// Finds the first position at which `key` stands in `s`.
pub fn find(s: &Vec<char>, key: &Vec<char>) -> (r: Option<usize>)
    ensures
        match r {
            Some(i) => {
                &&& first_occurrence(s@, key@) == Some(i as int)
                &&& occurs_at(s@, key@, i as int)
                &&& i + key@.len() <= usize::MAX
            },
            None => first_occurrence(s@, key@) is None,
        },
{
    let n: usize = s.len();
    let mut i: usize = 0;
    while i < n
        invariant
            i <= n == s@.len(),
            forall|j: int| 0 <= j < i ==> !#[trigger] occurs_at(s@, key@, j),
        decreases n - i,
    {
        if stands_at(s, key, i) {
            proof {
                lemma_first_occurrence_is(s@, key@, i as int);
            }
            return Some(i);
        }
        i = i + 1;
    }
    if stands_at(s, key, i) {
        proof {
            lemma_first_occurrence_is(s@, key@, i as int);
        }
        return Some(i);
    }
    None
}

/// The position of the first `c` in `s` at or after `from`; the length of `s` where there is none.
pub open spec fn next_position(s: Seq<char>, c: char, from: int) -> int
    decreases s.len() - from,
{
    if from < 0 || from >= s.len() {
        s.len() as int
    } else if s[from] == c {
        from
    } else {
        next_position(s, c, from + 1)
    }
}

/// A run without `c` is skipped.
pub proof fn lemma_next_position(s: Seq<char>, c: char, from: int, at: int)
    requires
        0 <= from <= at <= s.len(),
        forall|j: int| from <= j < at ==> s[j] != c,
        at < s.len() ==> s[at] == c,
    ensures
        next_position(s, c, from) == at,
    decreases at - from,
{
    if from < at {
        lemma_next_position(s, c, from + 1, at);
    }
}

/// Finds the first `c` in `s` at or after `from`.
pub fn find_char(s: &Vec<char>, c: char, from: usize) -> (r: usize)
    requires
        from <= s@.len(),
    ensures
        from <= r <= s@.len(),
        r == next_position(s@, c, from as int),
        r < s@.len() ==> s@[r as int] == c,
{
    let mut i: usize = from;
    while i < s.len() && s[i] != c
        invariant
            from <= i <= s@.len(),
            next_position(s@, c, from as int) == next_position(s@, c, i as int),
        decreases s@.len() - i,
    {
        i = i + 1;
    }
    i
}

// Decimal numbers

/// `c` is a decimal digit.
pub open spec fn is_digit(c: char) -> bool {
    '0' <= c <= '9'
}

/// The character of the decimal digit `d`.
pub open spec fn digit_char(d: int) -> char {
    (48 + d) as char
}

/// The decimal text of `n`, without leading zeros.
pub open spec fn decimal(n: nat) -> Seq<char>
    decreases n,
{
    if n < 10 {
        seq![digit_char(n as int)]
    } else {
        decimal(n / 10).push(digit_char((n % 10) as int))
    }
}

/// The number that a run of decimal digits stands for.
pub open spec fn digits_value(s: Seq<char>) -> nat
    decreases s.len(),
{
    if s.len() == 0 {
        0
    } else {
        10 * digits_value(s.drop_last()) + (s.last() as int - 48) as nat
    }
}

/// Where the run of decimal digits that starts at `from` ends.
pub open spec fn digits_end(s: Seq<char>, from: int) -> int
    decreases s.len() - from,
{
    if 0 <= from < s.len() && is_digit(s[from]) {
        digits_end(s, from + 1)
    } else {
        from
    }
}

/// A run of digits ends before the first character that is no digit.
pub proof fn lemma_digits_end(s: Seq<char>, from: int, at: int)
    requires
        0 <= from <= at <= s.len(),
        forall|j: int| from <= j < at ==> is_digit(s[j]),
        at < s.len() ==> !is_digit(s[at]),
    ensures
        digits_end(s, from) == at,
    decreases at - from,
{
    if from < at {
        lemma_digits_end(s, from + 1, at);
    }
}

/// Reading the decimal text of a number gives the number back.
pub proof fn law_decimal_round_trip(n: nat)
    ensures
        digits_value(decimal(n)) == n,
        decimal(n).len() > 0,
        forall|i: int| 0 <= i < decimal(n).len() ==> is_digit(#[trigger] decimal(n)[i]),
    decreases n,
{
    if n < 10 {
        assert(decimal(n).drop_last() =~= Seq::<char>::empty());
        assert(digits_value(Seq::<char>::empty()) == 0);
    } else {
        law_decimal_round_trip(n / 10);
        assert(decimal(n).drop_last() =~= decimal(n / 10));
    }
}

/// Dropping digits from the end never makes the number larger.
proof fn lemma_digits_value_prefix(s: Seq<char>, k: int)
    requires
        0 <= k <= s.len(),
        forall|i: int| 0 <= i < s.len() ==> is_digit(#[trigger] s[i]),
    ensures
        digits_value(s.take(k)) <= digits_value(s),
    decreases s.len() - k,
{
    if k < s.len() {
        lemma_digits_value_prefix(s, k + 1);
        assert(s.take(k + 1).drop_last() =~= s.take(k));
        assert(is_digit(s[k]));
    } else {
        assert(s.take(k) =~= s);
    }
}

/// Appends the decimal text of `n`.
pub fn push_decimal(out: &mut String, n: u64)
    ensures
        final(out)@ == old(out)@ + decimal(n as nat),
    decreases n,
{
    if n >= 10 {
        push_decimal(out, n / 10);
    }
    let d: u8 = (n % 10) as u8;
    out.push((48 + d) as char);
    assert(out@ =~= old(out)@ + decimal(n as nat));
}

/// Reads the decimal digits of `s` from `from` up to `to`; `None` where there are none or the
/// number does not fit.
pub fn parse_digits(s: &Vec<char>, from: usize, to: usize) -> (r: Option<u64>)
    requires
        from <= to <= s@.len(),
        forall|i: int| from <= i < to ==> is_digit(#[trigger] s@[i]),
    ensures
        match r {
            Some(n) => from < to && n == digits_value(s@.subrange(from as int, to as int)),
            None => from == to || digits_value(s@.subrange(from as int, to as int)) > u64::MAX,
        },
{
    if from == to {
        return None;
    }
    let ghost run = s@.subrange(from as int, to as int);
    let mut n: u64 = 0;
    let mut i: usize = from;
    proof {
        assert(run.take(0) =~= Seq::<char>::empty());
    }
    while i < to
        invariant
            from <= i <= to <= s@.len(),
            run == s@.subrange(from as int, to as int),
            forall|j: int| from <= j < to ==> is_digit(#[trigger] s@[j]),
            n == digits_value(run.take(i - from)),
        decreases to - i,
    {
        let d: u64 = s[i] as u64 - 48;
        proof {
            assert forall|j: int| 0 <= j < run.len() implies is_digit(#[trigger] run[j]) by {
                assert(is_digit(s@[from + j]));
            }
            assert(run.take(i + 1 - from).drop_last() =~= run.take(i - from));
            lemma_digits_value_prefix(run, i + 1 - from);
        }
        if n > (u64::MAX - d) / 10 {
            return None;
        }
        n = 10 * n + d;
        i = i + 1;
    }
    assert(run.take(to - from) =~= run);
    Some(n)
}

/// Finds the end of the run of decimal digits that starts at `from`.
pub fn find_digits_end(s: &Vec<char>, from: usize) -> (r: usize)
    requires
        from <= s@.len(),
    ensures
        from <= r <= s@.len(),
        r == digits_end(s@, from as int),
        forall|i: int| from <= i < r ==> is_digit(#[trigger] s@[i]),
{
    let mut i: usize = from;
    while i < s.len() && s[i] >= '0' && s[i] <= '9'
        invariant
            from <= i <= s@.len(),
            digits_end(s@, from as int) == digits_end(s@, i as int),
            forall|j: int| from <= j < i ==> is_digit(#[trigger] s@[j]),
        decreases s@.len() - i,
    {
        i = i + 1;
    }
    i
}

// Lists

/// The texts one after another, with a comma between each two.
pub open spec fn join(texts: Seq<Seq<char>>) -> Seq<char>
    decreases texts.len(),
{
    if texts.len() == 0 {
        Seq::empty()
    } else if texts.len() == 1 {
        texts[0]
    } else {
        join(texts.drop_last()).push(',') + texts.last()
    }
}

/// The pieces of `s` between its commas, in order. There is one piece more than there are commas.
pub open spec fn split(s: Seq<char>) -> Seq<Seq<char>>
    decreases s.len(),
{
    if s.len() == 0 {
        seq![Seq::empty()]
    } else {
        let pieces = split(s.drop_last());
        if s.last() == ',' {
            pieces.push(Seq::empty())
        } else {
            pieces.update(pieces.len() - 1, pieces.last().push(s.last()))
        }
    }
}

/// There is always a piece.
proof fn lemma_split_nonempty(s: Seq<char>)
    ensures
        split(s).len() > 0,
    decreases s.len(),
{
    if s.len() > 0 {
        lemma_split_nonempty(s.drop_last());
    }
}

/// A text without a comma, appended, extends the last piece.
proof fn lemma_split_append(a: Seq<char>, t: Seq<char>)
    requires
        !t.contains(','),
    ensures
        split(a + t) == split(a).update(split(a).len() - 1, split(a).last() + t),
    decreases t.len(),
{
    lemma_split_nonempty(a);
    if t.len() == 0 {
        assert(a + t =~= a);
        assert(split(a).last() + t =~= split(a).last());
        assert(split(a).update(split(a).len() - 1, split(a).last()) =~= split(a));
    } else {
        let u = t.drop_last();
        assert(!u.contains(',')) by {
            if u.contains(',') {
                let i = choose|i: int| 0 <= i < u.len() && u[i] == ',';
                assert(t[i] == ',');
            }
        }
        lemma_split_append(a, u);
        assert((a + t).drop_last() =~= a + u);
        assert((a + t).last() == t.last());
        assert(t.last() != ',') by {
            assert(t.contains(t.last()));
        }
        assert((split(a).last() + u).push(t.last()) =~= split(a).last() + t);
        assert(split(a + t) =~= split(a).update(split(a).len() - 1, split(a).last() + t));
    }
}

/// Splitting the joined texts gives the texts back, as long as none of them holds a comma.
pub proof fn lemma_split_join(texts: Seq<Seq<char>>)
    requires
        texts.len() > 0,
        forall|i: int| 0 <= i < texts.len() ==> !(#[trigger] texts[i]).contains(','),
    ensures
        split(join(texts)) == texts,
    decreases texts.len(),
{
    let last = texts.last();
    let e = Seq::<char>::empty();
    if texts.len() == 1 {
        lemma_split_append(e, last);
        assert(e + last =~= last);
        assert(split(last) =~= texts);
    } else {
        let init = texts.drop_last();
        assert forall|i: int| 0 <= i < init.len() implies !(#[trigger] init[i]).contains(',') by {
            assert(init[i] == texts[i]);
        }
        lemma_split_join(init);
        let a = join(init).push(',');
        assert(a.drop_last() =~= join(init));
        assert(split(a) == init.push(e));
        lemma_split_append(a, last);
        assert(e + last =~= last);
        assert(split(join(texts)) =~= texts);
    }
}

/// `c` separates words, by the property `White_Space` of the Unicode character database.
pub open spec fn is_white(c: char) -> bool {
    ||| 0x9 <= c as u32 <= 0xD
    ||| c as u32 == 0x20
    ||| c as u32 == 0x85
    ||| c as u32 == 0xA0
    ||| c as u32 == 0x1680
    ||| 0x2000 <= c as u32 <= 0x200A
    ||| c as u32 == 0x2028
    ||| c as u32 == 0x2029
    ||| c as u32 == 0x202F
    ||| c as u32 == 0x205F
    ||| c as u32 == 0x3000
}

/// `s` without the white space at its start.
pub open spec fn trim_start(s: Seq<char>) -> Seq<char>
    decreases s.len(),
{
    if s.len() > 0 && is_white(s[0]) {
        trim_start(s.drop_first())
    } else {
        s
    }
}

/// `s` without the white space at its end.
pub open spec fn trim_end(s: Seq<char>) -> Seq<char>
    decreases s.len(),
{
    if s.len() > 0 && is_white(s.last()) {
        trim_end(s.drop_last())
    } else {
        s
    }
}

/// `s` without the white space at either end.
pub open spec fn trim(s: Seq<char>) -> Seq<char> {
    trim_end(trim_start(s))
}

/// Tells whether `c` is white space.
fn white(c: char) -> (r: bool)
    ensures
        r == is_white(c),
{
    let u: u32 = c as u32;
    (0x9 <= u && u <= 0xD) || u == 0x20 || u == 0x85 || u == 0xA0 || u == 0x1680 || (0x2000 <= u
        && u <= 0x200A) || u == 0x2028 || u == 0x2029 || u == 0x202F || u == 0x205F || u == 0x3000
}

/// The characters of `s` from `from` up to `to`, without the white space at either end.
fn trimmed_between(s: &Vec<char>, from: usize, to: usize) -> (r: String)
    requires
        from <= to <= s@.len(),
    ensures
        r@ == trim(s@.subrange(from as int, to as int)),
{
    let mut a: usize = from;
    while a < to && white(s[a])
        invariant
            from <= a <= to <= s@.len(),
            trim_start(s@.subrange(from as int, to as int)) == trim_start(
                s@.subrange(a as int, to as int),
            ),
        decreases to - a,
    {
        assert(s@.subrange(a as int, to as int).drop_first() =~= s@.subrange(a + 1, to as int));
        a = a + 1;
    }
    let mut b: usize = to;
    while b > a && white(s[b - 1])
        invariant
            from <= a <= b <= to <= s@.len(),
            trim_end(s@.subrange(a as int, to as int)) == trim_end(
                s@.subrange(a as int, b as int),
            ),
        decreases b,
    {
        assert(s@.subrange(a as int, b as int).drop_last() =~= s@.subrange(a as int, b - 1));
        b = b - 1;
    }
    string_between(s, a, b)
}

/// The pieces of the characters of `s` from `from` up to `to`, split at the commas, each without
/// the white space at its ends.
pub fn split_trimmed(s: &Vec<char>, from: usize, to: usize) -> (r: Vec<String>)
    requires
        from <= to <= s@.len(),
    ensures
        r@.map_values(|t: String| t@) == split(s@.subrange(from as int, to as int)).map_values(
            |t: Seq<char>| trim(t),
        ),
{
    let mut r: Vec<String> = Vec::new();
    let mut start: usize = from;
    let mut i: usize = from;
    let ghost view = |t: String| t@;
    let ghost trimming = |t: Seq<char>| trim(t);
    assert(s@.subrange(from as int, from as int) =~= Seq::<char>::empty());
    while i < to
        invariant
            from <= start <= i <= to <= s@.len(),
            view == (|t: String| t@),
            trimming == (|t: Seq<char>| trim(t)),
            ({
                let pieces = split(s@.subrange(from as int, i as int));
                &&& pieces.len() == r@.len() + 1
                &&& pieces.last() == s@.subrange(start as int, i as int)
                &&& r@.map_values(view) == pieces.drop_last().map_values(trimming)
            }),
        decreases to - i,
    {
        let ghost done = s@.subrange(from as int, i as int);
        let ghost pieces = split(done);
        let ghost r0 = r@;
        assert(s@.subrange(from as int, i + 1).drop_last() =~= done);
        if s[i] == ',' {
            let piece = trimmed_between(s, start, i);
            r.push(piece);
            start = i + 1;
            assert(split(s@.subrange(from as int, i + 1)) == pieces.push(Seq::empty()));
            assert(pieces.push(Seq::empty()).drop_last() =~= pieces);
            assert(s@.subrange(start as int, i + 1) =~= Seq::<char>::empty());
            assert(r@.map_values(view) =~= r0.map_values(view).push(piece@));
            assert(pieces.map_values(trimming) =~= pieces.drop_last().map_values(trimming).push(
                trim(pieces.last()),
            ));
        } else {
            assert(s@.subrange(start as int, i + 1) =~= s@.subrange(start as int, i as int).push(
                s@[i as int],
            ));
            assert(split(s@.subrange(from as int, i + 1)).drop_last() =~= pieces.drop_last());
        }
        i = i + 1;
    }
    let ghost pieces = split(s@.subrange(from as int, to as int));
    let ghost r0 = r@;
    let piece = trimmed_between(s, start, to);
    r.push(piece);
    assert(r@.map_values(view) =~= r0.map_values(view).push(piece@));
    assert(pieces.map_values(trimming) =~= pieces.drop_last().map_values(trimming).push(
        trim(pieces.last()),
    ));
    r
}

} // verus!
