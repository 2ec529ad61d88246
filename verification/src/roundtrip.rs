//! What is written as a message is read back from it.
use crate::a2a::are_parsed;
use crate::a2a::are_shown;
use crate::a2a::completed;
use crate::a2a::components_of;
use crate::a2a::frame_of;
use crate::a2a::frame_text;
use crate::a2a::head_of;
use crate::a2a::is_parsed;
use crate::a2a::is_read;
use crate::a2a::is_readable;
use crate::a2a::is_result;
use crate::a2a::is_shown;
use crate::a2a::is_written;
use crate::a2a::label;
use crate::a2a::lemma_labels_differ;
use crate::a2a::name_after;
use crate::a2a::number_after;
use crate::a2a::number_field;
use crate::a2a::string_after;
use crate::a2a::string_field;
use crate::a2a::type_labelled;
use crate::a2a::FrameView;
use crate::a2a::HeadView;
use crate::hex::hex_text;
use crate::hex::law_hex_round_trip;
use crate::hex::lemma_hex_text_plain;
use crate::json::escaped;
use crate::json::is_number;
use crate::json::is_object;
use crate::json::is_special;
use crate::json::is_string_body;
use crate::json::law_escape_round_trip;
use crate::json::lemma_body_is_unquoted;
use crate::json::lemma_decimal_is_number;
use crate::json::lemma_escaped_ends;
use crate::json::lemma_escaped_is_body;
use crate::json::lemma_plain_is_body;
use crate::json::member_texts;
use crate::json::object_text;
use crate::json::unescaped;
use crate::json::Value;
use crate::signal::Signal;
use crate::signal::SignalType;
use crate::signal::SignalView;
use crate::text::decimal;
use crate::text::first_occurrence;
use crate::text::is_digit;
use crate::text::join;
use crate::text::law_decimal_round_trip;
use crate::text::lemma_digits_end;
use crate::text::lemma_first_occurrence_is;
use crate::text::lemma_next_position;
use crate::text::lemma_split_join;
use crate::text::occurs_at;
use crate::text::trim;
use vstd::prelude::*;
use vstd::utf8::encode_utf8;

verus! {

/// `s` holds no quotation mark.
spec fn is_unquoted(s: Seq<char>) -> bool {
    forall|i: int| 0 <= i < s.len() ==> #[trigger] s[i] != '"'
}

/// `name` can name a member: it is not empty, holds no quotation mark, and does not start with a
/// character that may stand behind one.
spec fn is_name(name: Seq<char>) -> bool {
    name.len() > 0 && name[0] != ':' && name[0] != ',' && is_unquoted(name)
}

/// What every member of that name starts with.
spec fn opening(name: Seq<char>) -> Seq<char> {
    seq!['"'] + name + seq!['"', ':']
}

/// No member named `name` starts within `s`, whatever stands behind it.
spec fn is_free_of(s: Seq<char>, name: Seq<char>) -> bool {
    forall|rest: Seq<char>, i: int|
        0 <= i < s.len() ==> !#[trigger] occurs_at(s + rest, opening(name), i)
}

/// The punctuation of a message, character by character.
proof fn lemma_punctuation()
    ensures
        "\""@ == seq!['"'],
        "\":"@ == seq!['"', ':'],
        "\":\""@ == seq!['"', ':', '"'],
        ","@ == seq![','],
        "\","@ == seq!['"', ','],
        "{"@ == seq!['{'],
        "]}"@ == seq![']', '}'],
{
    reveal_strlit("\"");
    reveal_strlit("\":");
    reveal_strlit("\":\"");
    reveal_strlit(",");
    reveal_strlit("\",");
    reveal_strlit("{");
    reveal_strlit("]}");
    assert("\""@ =~= seq!['"']);
    assert("\":"@ =~= seq!['"', ':']);
    assert("\":\""@ =~= seq!['"', ':', '"']);
    assert(","@ =~= seq![',']);
    assert("\","@ =~= seq!['"', ',']);
    assert("{"@ =~= seq!['{']);
    assert("]}"@ =~= seq![']', '}']);
}

/// Where a string between quotation marks stands in `s` at `i`, a member of another name, or with
/// no colon behind the string, does not start.
proof fn lemma_no_opening(s: Seq<char>, name: Seq<char>, i: int, v: Seq<char>, behind: char)
    requires
        is_name(name),
        is_unquoted(v),
        0 <= i,
        i + v.len() + 3 <= s.len(),
        forall|j: int| 0 <= j < v.len() ==> s[i + 1 + j] == #[trigger] v[j],
        s[i + 1 + v.len()] == '"',
        s[i + 2 + v.len()] == behind,
        v != name || behind != ':',
    ensures
        !occurs_at(s, opening(name), i),
{
    let key = opening(name);
    if occurs_at(s, key, i) {
        let cut = s.subrange(i, i + key.len());
        assert forall|j: int| 0 <= j < key.len() implies s[i + j] == #[trigger] key[j] by {
            assert(cut[j] == s[i + j]);
        }
        let n = name.len() as int;
        let m = v.len() as int;
        assert(key[n + 1] == '"' && key[n + 2] == ':');
        if n < m {
            assert(s[i + (n + 1)] == '"');
            assert(s[i + 1 + n] == v[n]);
        } else if m < n {
            assert(key[m + 1] == name[m]);
            assert(s[i + (m + 1)] == key[m + 1]);
        } else {
            assert forall|j: int| 0 <= j < n implies name[j] == v[j] by {
                assert(key[j + 1] == name[j]);
                assert(s[i + (j + 1)] == key[j + 1]);
                assert(s[i + 1 + j] == v[j]);
            }
            assert(name =~= v);
            assert(s[i + (n + 2)] == key[n + 2]);
        }
    }
}

/// Where no quotation mark stands, or one with a colon or a comma behind it, no member starts.
proof fn lemma_no_opening_here(s: Seq<char>, name: Seq<char>, i: int)
    requires
        is_name(name),
        0 <= i < s.len(),
        s[i] != '"' || (i + 1 < s.len() && (s[i + 1] == ':' || s[i + 1] == ',')),
    ensures
        !occurs_at(s, opening(name), i),
{
    let key = opening(name);
    if occurs_at(s, key, i) {
        let cut = s.subrange(i, i + key.len());
        assert(cut[0] == s[i] && key[0] == '"');
        assert(cut[1] == s[i + 1] && key[1] == name[0]);
    }
}

proof fn lemma_free_append(a: Seq<char>, b: Seq<char>, name: Seq<char>)
    requires
        is_free_of(a, name),
        is_free_of(b, name),
    ensures
        is_free_of(a + b, name),
{
    let key = opening(name);
    assert forall|rest: Seq<char>, i: int| 0 <= i < (a + b).len() implies !#[trigger] occurs_at(
        (a + b) + rest,
        key,
        i,
    ) by {
        assert((a + b) + rest =~= a + (b + rest));
        if i < a.len() {
            assert(!occurs_at(a + (b + rest), key, i));
        } else {
            let k = i - a.len();
            assert(!occurs_at(b + rest, key, k));
            if occurs_at((a + b) + rest, key, i) {
                assert((b + rest).subrange(k, k + key.len()) =~= ((a + b) + rest).subrange(
                    i,
                    i + key.len(),
                ));
            }
        }
    }
}

proof fn lemma_number_field_free(field: Seq<char>, v: Seq<char>, name: Seq<char>)
    requires
        is_name(field),
        is_name(name),
        field != name,
        is_unquoted(v),
    ensures
        is_free_of(number_field(field, v), name),
{
    lemma_punctuation();
    let f = number_field(field, v);
    let n = field.len() as int;
    assert(f =~= seq!['"'] + field + seq!['"', ':'] + v + seq![',']);
    assert forall|rest: Seq<char>, i: int| 0 <= i < f.len() implies !#[trigger] occurs_at(
        f + rest,
        opening(name),
        i,
    ) by {
        let s = f + rest;
        if i == 0 {
            assert forall|j: int| 0 <= j < n implies s[1 + j] == #[trigger] field[j] by {}
            lemma_no_opening(s, name, 0, field, ':');
        } else {
            if 0 < i <= n {
                assert(s[i] == field[i - 1]);
            } else if n + 3 <= i < n + 3 + v.len() {
                assert(s[i] == v[i - n - 3]);
            }
            lemma_no_opening_here(s, name, i);
        }
    }
}

proof fn lemma_string_field_free(field: Seq<char>, v: Seq<char>, name: Seq<char>)
    requires
        is_name(field),
        is_name(name),
        field != name,
        is_unquoted(v),
    ensures
        is_free_of(string_field(field, v), name),
{
    lemma_punctuation();
    let f = string_field(field, v);
    let n = field.len() as int;
    let m = v.len() as int;
    assert(f =~= seq!['"'] + field + seq!['"', ':', '"'] + v + seq!['"', ',']);
    assert forall|rest: Seq<char>, i: int| 0 <= i < f.len() implies !#[trigger] occurs_at(
        f + rest,
        opening(name),
        i,
    ) by {
        let s = f + rest;
        if i == 0 {
            assert forall|j: int| 0 <= j < n implies s[1 + j] == #[trigger] field[j] by {}
            lemma_no_opening(s, name, 0, field, ':');
        } else if i == n + 3 {
            assert forall|j: int| 0 <= j < m implies s[i + 1 + j] == #[trigger] v[j] by {}
            lemma_no_opening(s, name, i, v, ',');
        } else {
            if 0 < i <= n {
                assert(s[i] == field[i - 1]);
            } else if n + 4 <= i < n + 4 + m {
                assert(s[i] == v[i - n - 4]);
            }
            lemma_no_opening_here(s, name, i);
        }
    }
}

/// A key that starts with the opening of a member is found where that member stands.
proof fn lemma_found(before: Seq<char>, name: Seq<char>, key: Seq<char>, rest: Seq<char>)
    requires
        is_free_of(before, name),
        key.len() >= opening(name).len(),
        key.take(opening(name).len() as int) == opening(name),
        key.len() <= rest.len(),
        rest.take(key.len() as int) == key,
    ensures
        first_occurrence(before + rest, key) == Some(before.len() as int),
{
    let s = before + rest;
    let n = before.len() as int;
    let head = opening(name);
    assert(s.subrange(n, n + key.len()) =~= rest.take(key.len() as int));
    assert forall|j: int| 0 <= j < n implies !#[trigger] occurs_at(s, key, j) by {
        if occurs_at(s, key, j) {
            assert(s.subrange(j, j + head.len()) =~= s.subrange(j, j + key.len()).take(
                head.len() as int,
            ));
            assert(occurs_at(before + rest, head, j));
        }
    }
    lemma_first_occurrence_is(s, key, n);
}

/// A string field is read back.
proof fn lemma_string_read(before: Seq<char>, name: Seq<char>, v: Seq<char>, behind: Seq<char>)
    requires
        is_free_of(before, name),
        is_unquoted(v),
    ensures
        string_after(
            before + (string_field(name, v) + behind),
            opening(name) + seq!['"'],
        ) == Ok::<Seq<char>, Seq<char>>(v),
{
    lemma_punctuation();
    let key = opening(name) + seq!['"'];
    let rest = string_field(name, v) + behind;
    let s = before + rest;
    assert(rest =~= key + v + seq!['"', ','] + behind);
    assert(key.take(opening(name).len() as int) =~= opening(name));
    assert(rest.take(key.len() as int) =~= key);
    lemma_found(before, name, key, rest);
    let start = before.len() + key.len();
    assert forall|j: int| start <= j < start + v.len() implies s[j] != '"' by {
        assert(s[j] == v[j - start]);
    }
    lemma_next_position(s, '"', start as int, (start + v.len()) as int);
    assert(s.subrange(start as int, (start + v.len()) as int) =~= v);
}

/// A string field that says a name is read back.
proof fn lemma_name_read(before: Seq<char>, name: Seq<char>, room: Seq<char>, behind: Seq<char>)
    requires
        is_free_of(before, name),
    ensures
        name_after(
            before + (string_field(name, escaped(room)) + behind),
            opening(name) + seq!['"'],
        ) == Ok::<Seq<char>, Seq<char>>(room),
{
    lemma_punctuation();
    let v = escaped(room);
    let key = opening(name) + seq!['"'];
    let rest = string_field(name, v) + behind;
    let s = before + rest;
    assert(rest =~= key + v + seq!['"', ','] + behind);
    assert(key.take(opening(name).len() as int) =~= opening(name));
    assert(rest.take(key.len() as int) =~= key);
    lemma_found(before, name, key, rest);
    let start = (before.len() + key.len()) as int;
    assert(s.subrange(start, start + v.len()) =~= v);
    assert(s[start + v.len()] == '"');
    lemma_escaped_ends(s, start, room);
    law_escape_round_trip(room);
}

/// A number field is read back.
proof fn lemma_number_read(before: Seq<char>, name: Seq<char>, n: nat, behind: Seq<char>)
    requires
        is_free_of(before, name),
        n <= u64::MAX,
    ensures
        number_after(
            before + (number_field(name, decimal(n)) + behind),
            opening(name),
        ) == Ok::<u64, Seq<char>>(n as u64),
{
    lemma_punctuation();
    law_decimal_round_trip(n);
    let v = decimal(n);
    let key = opening(name);
    let rest = number_field(name, v) + behind;
    let s = before + rest;
    assert(rest =~= key + v + seq![','] + behind);
    assert(key.take(key.len() as int) =~= key);
    assert(rest.take(key.len() as int) =~= key);
    lemma_found(before, name, key, rest);
    let start = before.len() + key.len();
    assert forall|j: int| start <= j < start + v.len() implies is_digit(s[j]) by {
        assert(s[j] == v[j - start]);
    }
    lemma_digits_end(s, start as int, (start + v.len()) as int);
    assert(s.subrange(start as int, (start + v.len()) as int) =~= v);
}

/// The names of the members can name members, and they differ.
proof fn lemma_names()
    ensures
        is_name("id"@),
        is_name("source"@),
        is_name("target"@),
        is_name("signal_type"@),
        is_name("priority"@),
        is_name("timestamp"@),
        is_name("payload"@),
        is_name("embedding"@),
        "id"@ != "source"@,
        "id"@ != "target"@,
        "id"@ != "signal_type"@,
        "id"@ != "priority"@,
        "id"@ != "timestamp"@,
        "id"@ != "payload"@,
        "id"@ != "embedding"@,
        "source"@ != "target"@,
        "source"@ != "signal_type"@,
        "source"@ != "priority"@,
        "source"@ != "timestamp"@,
        "source"@ != "payload"@,
        "source"@ != "embedding"@,
        "target"@ != "signal_type"@,
        "target"@ != "priority"@,
        "target"@ != "timestamp"@,
        "target"@ != "payload"@,
        "target"@ != "embedding"@,
        "signal_type"@ != "priority"@,
        "signal_type"@ != "timestamp"@,
        "signal_type"@ != "payload"@,
        "signal_type"@ != "embedding"@,
        "priority"@ != "timestamp"@,
        "priority"@ != "payload"@,
        "priority"@ != "embedding"@,
        "timestamp"@ != "payload"@,
        "timestamp"@ != "embedding"@,
        "payload"@ != "embedding"@,
{
    reveal_strlit("id");
    reveal_strlit("source");
    reveal_strlit("target");
    reveal_strlit("signal_type");
    reveal_strlit("priority");
    reveal_strlit("timestamp");
    reveal_strlit("payload");
    reveal_strlit("embedding");
    assert("id"@ =~= seq!['i', 'd']);
    assert("source"@ =~= seq!['s', 'o', 'u', 'r', 'c', 'e']);
    assert("target"@ =~= seq!['t', 'a', 'r', 'g', 'e', 't']);
    assert("signal_type"@ =~= seq!['s', 'i', 'g', 'n', 'a', 'l', '_', 't', 'y', 'p', 'e']);
    assert("priority"@ =~= seq!['p', 'r', 'i', 'o', 'r', 'i', 't', 'y']);
    assert("timestamp"@ =~= seq!['t', 'i', 'm', 'e', 's', 't', 'a', 'm', 'p']);
    assert("payload"@ =~= seq!['p', 'a', 'y', 'l', 'o', 'a', 'd']);
    assert("embedding"@ =~= seq!['e', 'm', 'b', 'e', 'd', 'd', 'i', 'n', 'g']);
    assert("source"@[0] != "target"@[0]);
    assert("timestamp"@[0] != "embedding"@[0]);
}

/// The keys by which members are looked up start as the members do.
proof fn lemma_keys()
    ensures
        "\"id\":"@ == opening("id"@),
        "\"source\":\""@ == opening("source"@) + seq!['"'],
        "\"target\":\""@ == opening("target"@) + seq!['"'],
        "\"signal_type\":\""@ == opening("signal_type"@) + seq!['"'],
        "\"priority\":"@ == opening("priority"@),
        "\"timestamp\":"@ == opening("timestamp"@),
        "\"payload\":\""@ == opening("payload"@) + seq!['"'],
        "\"embedding\":["@ == opening("embedding"@) + seq!['['],
{
    reveal_strlit("id");
    reveal_strlit("\"id\":");
    assert("\"id\":"@ =~= opening("id"@));
    reveal_strlit("source");
    reveal_strlit("\"source\":\"");
    assert("\"source\":\""@ =~= opening("source"@) + seq!['"']);
    reveal_strlit("target");
    reveal_strlit("\"target\":\"");
    assert("\"target\":\""@ =~= opening("target"@) + seq!['"']);
    reveal_strlit("signal_type");
    reveal_strlit("\"signal_type\":\"");
    assert("\"signal_type\":\""@ =~= opening("signal_type"@) + seq!['"']);
    reveal_strlit("priority");
    reveal_strlit("\"priority\":");
    assert("\"priority\":"@ =~= opening("priority"@));
    reveal_strlit("timestamp");
    reveal_strlit("\"timestamp\":");
    assert("\"timestamp\":"@ =~= opening("timestamp"@));
    reveal_strlit("payload");
    reveal_strlit("\"payload\":\"");
    assert("\"payload\":\""@ =~= opening("payload"@) + seq!['"']);
    reveal_strlit("embedding");
    reveal_strlit("\"embedding\":[");
    assert("\"embedding\":["@ =~= opening("embedding"@) + seq!['[']);
}

/// `text` can stand in the list of components: it holds no comma and no closing bracket, and has
/// no white space at its ends.
pub open spec fn is_component(text: Seq<char>) -> bool {
    &&& forall|i: int| 0 <= i < text.len() ==> #[trigger] text[i] != ',' && text[i] != ']'
    &&& trim(text) == text
}

/// The texts can be listed so that they are found again: each can stand in the list, and the list
/// is not just one empty text.
pub open spec fn are_components(list: Seq<Seq<char>>) -> bool {
    &&& forall|i: int| 0 <= i < list.len() ==> is_component(#[trigger] list[i])
    &&& list.len() == 1 ==> list[0].len() > 0
}

/// A closing bracket does not come into a joined list unless a text brings it.
proof fn lemma_join_open(list: Seq<Seq<char>>)
    requires
        forall|i: int| 0 <= i < list.len() ==> is_component(#[trigger] list[i]),
    ensures
        forall|i: int| 0 <= i < join(list).len() ==> #[trigger] join(list)[i] != ']',
        list.len() > 1 ==> join(list).len() > 0,
    decreases list.len(),
{
    if list.len() == 1 {
        assert(is_component(list[0]));
    } else if list.len() > 1 {
        let init = list.drop_last();
        assert forall|i: int| 0 <= i < init.len() implies is_component(#[trigger] init[i]) by {
            assert(init[i] == list[i]);
        }
        lemma_join_open(init);
        let a = join(init).push(',');
        let last = list.last();
        assert(is_component(list[list.len() - 1]));
        assert forall|i: int| 0 <= i < join(list).len() implies #[trigger] join(list)[i]
            != ']' by {
            if i < a.len() {
                assert(join(list)[i] == a[i]);
                if i < join(init).len() {
                    assert(a[i] == join(init)[i]);
                }
            } else {
                assert(join(list)[i] == last[i - a.len()]);
            }
        }
    }
}

/// The list of components is read back.
proof fn lemma_components_read(before: Seq<char>, list: Seq<Seq<char>>)
    requires
        is_free_of(before, "embedding"@),
        are_components(list),
    ensures
        components_of(before + ("\"embedding\":["@ + join(list) + "]}"@)) == Ok::<
            Seq<Seq<char>>,
            Seq<char>,
        >(list),
{
    lemma_punctuation();
    lemma_keys();
    lemma_join_open(list);
    let name = "embedding"@;
    let key = "\"embedding\":["@;
    let j = join(list);
    let rest = key + j + "]}"@;
    let s = before + rest;
    assert(key.take(opening(name).len() as int) =~= opening(name));
    assert(rest.take(key.len() as int) =~= key);
    lemma_found(before, name, key, rest);
    let start = (before.len() + key.len()) as int;
    let end = start + j.len();
    assert forall|i: int| start <= i < end implies s[i] != ']' by {
        assert(s[i] == j[i - start]);
    }
    assert(s[end] == ']');
    lemma_next_position(s, ']', start, end);
    assert(s.subrange(start, end) =~= j);
    if list.len() == 0 {
        assert(list =~= Seq::<Seq<char>>::empty());
    } else {
        assert forall|i: int| 0 <= i < list.len() implies !(#[trigger] list[i]).contains(',') by {
            assert(is_component(list[i]));
        }
        lemma_split_join(list);
        assert(list.map_values(|t: Seq<char>| trim(t)) =~= list) by {
            assert forall|i: int| 0 <= i < list.len() implies trim(#[trigger] list[i])
                == list[i] by {
                assert(is_component(list[i]));
            }
        }
    }
}

/// A number holds no quotation mark.
proof fn lemma_decimal_unquoted(n: nat)
    ensures
        is_unquoted(decimal(n)),
{
    law_decimal_round_trip(n);
    assert forall|i: int| 0 <= i < decimal(n).len() implies #[trigger] decimal(n)[i] != '"' by {
        assert(is_digit(decimal(n)[i]));
    }
}

/// Hexadecimal text holds no quotation mark.
proof fn lemma_hex_unquoted(data: Seq<u8>)
    ensures
        is_unquoted(hex_text(data)),
{
    assert forall|i: int| 0 <= i < hex_text(data).len() implies #[trigger] hex_text(data)[i]
        != '"' by {
        lemma_hex_text_plain(data, i);
    }
}

/// The label of a signal type needs no escape.
proof fn lemma_label_plain(t: SignalType)
    ensures
        forall|i: int| 0 <= i < label(t).len() ==> !is_special(#[trigger] label(t)[i]),
{
    reveal_strlit("Tick");
    reveal_strlit("Murmur");
    reveal_strlit("Prediction");
    reveal_strlit("Surprise");
    reveal_strlit("GcReport");
    reveal_strlit("VibeShift");
    reveal_strlit("LoRATrigger");
    reveal_strlit("BalanceAlert");
    reveal_strlit("CorrelationUpdate");
    reveal_strlit("EnergyUpdate");
    assert("Tick"@ =~= seq!['T', 'i', 'c', 'k']);
    assert("Murmur"@ =~= seq!['M', 'u', 'r', 'm', 'u', 'r']);
    assert("Prediction"@ =~= seq!['P', 'r', 'e', 'd', 'i', 'c', 't', 'i', 'o', 'n']);
    assert("Surprise"@ =~= seq!['S', 'u', 'r', 'p', 'r', 'i', 's', 'e']);
    assert("GcReport"@ =~= seq!['G', 'c', 'R', 'e', 'p', 'o', 'r', 't']);
    assert("VibeShift"@ =~= seq!['V', 'i', 'b', 'e', 'S', 'h', 'i', 'f', 't']);
    assert("LoRATrigger"@ =~= seq!['L', 'o', 'R', 'A', 'T', 'r', 'i', 'g', 'g', 'e', 'r']);
    assert("BalanceAlert"@ =~= seq!['B', 'a', 'l', 'a', 'n', 'c', 'e', 'A', 'l', 'e', 'r', 't']);
    assert("CorrelationUpdate"@ =~= seq!['C', 'o', 'r', 'r', 'e', 'l', 'a', 't', 'i', 'o', 'n']
        + seq!['U', 'p', 'd', 'a', 't', 'e']);
    assert("EnergyUpdate"@ =~= seq!['E', 'n', 'e', 'r', 'g', 'y', 'U', 'p', 'd', 'a', 't', 'e']);
}

proof fn lemma_brace_free(name: Seq<char>)
    requires
        is_name(name),
    ensures
        is_free_of("{"@, name),
{
    lemma_punctuation();
    assert forall|rest: Seq<char>, i: int| 0 <= i < "{"@.len() implies !#[trigger] occurs_at(
        "{"@ + rest,
        opening(name),
        i,
    ) by {
        assert(("{"@ + rest)[0] == '{');
        lemma_no_opening_here("{"@ + rest, name, i);
    }
}

/// A member of a message ahead of the embedding.
struct Member {
    name: Seq<char>,
    value: Seq<char>,
    quoted: bool,
}

/// How a member is written.
spec fn field(m: Member) -> Seq<char> {
    if m.quoted {
        string_field(m.name, m.value)
    } else {
        number_field(m.name, m.value)
    }
}

/// A message up to its `k`th member.
spec fn beginning(members: Seq<Member>, k: nat) -> Seq<char>
    decreases k,
{
    if k == 0 {
        "{"@
    } else {
        beginning(members, (k - 1) as nat) + field(members[k - 1])
    }
}

/// The members can be told from each other, and none of their values can be taken for one.
spec fn are_members(members: Seq<Member>) -> bool {
    forall|i: int|
        0 <= i < members.len() ==> is_name((#[trigger] members[i]).name) && is_unquoted(
            members[i].value,
        )
}

/// A member is not looked for among those of other names.
proof fn lemma_beginning_free(members: Seq<Member>, k: nat, name: Seq<char>)
    requires
        are_members(members),
        k <= members.len(),
        is_name(name),
        forall|i: int| 0 <= i < k ==> (#[trigger] members[i]).name != name,
    ensures
        is_free_of(beginning(members, k), name),
    decreases k,
{
    if k == 0 {
        lemma_brace_free(name);
    } else {
        let j = (k - 1) as nat;
        lemma_beginning_free(members, j, name);
        let m = members[j as int];
        if m.quoted {
            lemma_string_field_free(m.name, m.value, name);
        } else {
            lemma_number_field_free(m.name, m.value, name);
        }
        lemma_free_append(beginning(members, j), field(m), name);
    }
}

/// A message can be cut in front of and behind any of its members.
proof fn lemma_cut(members: Seq<Member>, n: nat, behind: Seq<char>, k: int) -> (rest: Seq<char>)
    requires
        0 <= k < n <= members.len(),
    ensures
        beginning(members, n) + behind == beginning(members, k as nat) + (field(members[k])
            + rest),
    decreases n,
{
    let m = (n - 1) as nat;
    let last = field(members[m as int]);
    assert(beginning(members, n) + behind =~= beginning(members, m) + (last + behind));
    if k == m {
        behind
    } else {
        lemma_cut(members, m, last + behind, k)
    }
}

/// The members of the message for a signal.
spec fn members_of(signal: SignalView) -> Seq<Member> {
    seq![
        Member { name: "id"@, value: decimal(signal.id as nat), quoted: false },
        Member { name: "source"@, value: escaped(signal.source), quoted: true },
        Member { name: "target"@, value: escaped(signal.target), quoted: true },
        Member { name: "signal_type"@, value: label(signal.signal_type), quoted: true },
        Member { name: "priority"@, value: decimal(signal.priority as nat), quoted: false },
        Member { name: "timestamp"@, value: decimal(signal.timestamp as nat), quoted: false },
        Member { name: "payload"@, value: hex_text(signal.payload), quoted: true },
    ]
}

/// The end of the message for a signal.
spec fn ending(list: Seq<Seq<char>>) -> Seq<char> {
    "\"embedding\":["@ + join(list) + "]}"@
}

/// The message for a signal is its members, between a brace and the end.
proof fn lemma_text_of_members(signal: SignalView, list: Seq<Seq<char>>)
    ensures
        frame_text(signal, list) == beginning(members_of(signal), 7) + ending(list),
{
    reveal_with_fuel(beginning, 8);
    assert(frame_text(signal, list) =~= beginning(members_of(signal), 7) + ending(list));
}

/// The members of the message for a signal can be told from each other.
proof fn lemma_members(signal: SignalView)
    ensures
        are_members(members_of(signal)),
        forall|i: int, j: int|
            0 <= i < j < 7 ==> (#[trigger] members_of(signal)[i]).name != (
            #[trigger] members_of(signal)[j]).name,
        forall|i: int| 0 <= i < 7 ==> (#[trigger] members_of(signal)[i]).name != "embedding"@,
{
    lemma_names();
    lemma_decimal_unquoted(signal.id as nat);
    lemma_decimal_unquoted(signal.priority as nat);
    lemma_decimal_unquoted(signal.timestamp as nat);
    lemma_hex_unquoted(signal.payload);
    lemma_label_plain(signal.signal_type);
    lemma_escaped_is_body(signal.source);
    lemma_body_is_unquoted(escaped(signal.source));
    lemma_escaped_is_body(signal.target);
    lemma_body_is_unquoted(escaped(signal.target));
}

/// A string member is read back.
proof fn lemma_string_member_read(signal: SignalView, list: Seq<Seq<char>>, k: int)
    requires
        0 <= k < 7,
        members_of(signal)[k].quoted,
    ensures
        string_after(
            frame_text(signal, list),
            opening(members_of(signal)[k].name) + seq!['"'],
        ) == Ok::<Seq<char>, Seq<char>>(members_of(signal)[k].value),
{
    let members = members_of(signal);
    lemma_text_of_members(signal, list);
    lemma_members(signal);
    lemma_beginning_free(members, k as nat, members[k].name);
    let rest = lemma_cut(members, 7, ending(list), k);
    lemma_string_read(
        beginning(members, k as nat),
        members[k].name,
        members[k].value,
        rest,
    );
}

/// A member that says a name is read back.
proof fn lemma_name_member_read(signal: SignalView, list: Seq<Seq<char>>, k: int, room: Seq<char>)
    requires
        0 <= k < 7,
        members_of(signal)[k].quoted,
        members_of(signal)[k].value == escaped(room),
    ensures
        name_after(
            frame_text(signal, list),
            opening(members_of(signal)[k].name) + seq!['"'],
        ) == Ok::<Seq<char>, Seq<char>>(room),
{
    let members = members_of(signal);
    lemma_text_of_members(signal, list);
    lemma_members(signal);
    lemma_beginning_free(members, k as nat, members[k].name);
    let rest = lemma_cut(members, 7, ending(list), k);
    lemma_name_read(beginning(members, k as nat), members[k].name, room, rest);
}

/// A number member is read back.
proof fn lemma_number_member_read(signal: SignalView, list: Seq<Seq<char>>, k: int, n: nat)
    requires
        0 <= k < 7,
        !members_of(signal)[k].quoted,
        members_of(signal)[k].value == decimal(n),
        n <= u64::MAX,
    ensures
        number_after(frame_text(signal, list), opening(members_of(signal)[k].name)) == Ok::<
            u64,
            Seq<char>,
        >(n as u64),
{
    let members = members_of(signal);
    lemma_text_of_members(signal, list);
    lemma_members(signal);
    lemma_beginning_free(members, k as nat, members[k].name);
    let rest = lemma_cut(members, 7, ending(list), k);
    lemma_number_read(beginning(members, k as nat), members[k].name, n, rest);
}

/// The numbers of a message are read back.
proof fn lemma_numbers_read(signal: SignalView, list: Seq<Seq<char>>)
    ensures
        number_after(frame_text(signal, list), "\"id\":"@) == Ok::<u64, Seq<char>>(signal.id),
        number_after(frame_text(signal, list), "\"priority\":"@) == Ok::<u64, Seq<char>>(
            signal.priority as u64,
        ),
        number_after(frame_text(signal, list), "\"timestamp\":"@) == Ok::<u64, Seq<char>>(
            signal.timestamp,
        ),
{
    lemma_keys();
    lemma_number_member_read(signal, list, 0, signal.id as nat);
    lemma_number_member_read(signal, list, 4, signal.priority as nat);
    lemma_number_member_read(signal, list, 5, signal.timestamp as nat);
}

/// The names of a message are read back.
proof fn lemma_rooms_read(signal: SignalView, list: Seq<Seq<char>>)
    ensures
        name_after(frame_text(signal, list), "\"source\":\""@) == Ok::<Seq<char>, Seq<char>>(
            signal.source,
        ),
        name_after(frame_text(signal, list), "\"target\":\""@) == Ok::<Seq<char>, Seq<char>>(
            signal.target,
        ),
{
    lemma_keys();
    lemma_name_member_read(signal, list, 1, signal.source);
    lemma_name_member_read(signal, list, 2, signal.target);
}

/// The label and the payload of a message are read back.
proof fn lemma_strings_read(signal: SignalView, list: Seq<Seq<char>>)
    ensures
        string_after(frame_text(signal, list), "\"signal_type\":\""@) == Ok::<
            Seq<char>,
            Seq<char>,
        >(label(signal.signal_type)),
        string_after(frame_text(signal, list), "\"payload\":\""@) == Ok::<Seq<char>, Seq<char>>(
            hex_text(signal.payload),
        ),
{
    lemma_keys();
    lemma_string_member_read(signal, list, 3);
    lemma_string_member_read(signal, list, 6);
}

/// Every member of a message ahead of the embedding is read back.
proof fn lemma_head_read(signal: SignalView, list: Seq<Seq<char>>)
    ensures
        head_of(frame_text(signal, list)) == Ok::<HeadView, Seq<char>>(
            HeadView {
                id: signal.id,
                source: signal.source,
                target: signal.target,
                label: label(signal.signal_type),
                priority: signal.priority,
                timestamp: signal.timestamp,
                payload: hex_text(signal.payload),
            },
        ),
{
    lemma_numbers_read(signal, list);
    lemma_rooms_read(signal, list);
    lemma_strings_read(signal, list);
}

/// The embedding of a message is read back.
proof fn lemma_embedding_read(signal: SignalView, list: Seq<Seq<char>>)
    requires
        are_components(list),
    ensures
        components_of(frame_text(signal, list)) == Ok::<Seq<Seq<char>>, Seq<char>>(list),
{
    lemma_text_of_members(signal, list);
    lemma_members(signal);
    lemma_names();
    lemma_beginning_free(members_of(signal), 7, "embedding"@);
    lemma_components_read(beginning(members_of(signal), 7), list);
}

/// Reading what was written gives everything back: whatever the signal, and whatever texts its
/// components are written as, as long as they can stand in a list.
pub proof fn law_frame_round_trip(signal: SignalView, list: Seq<Seq<char>>)
    requires
        are_components(list),
    ensures
        ({
            let data = encode_utf8(frame_text(signal, list));
            &&& is_readable(data)
            &&& frame_of(data) == Ok::<FrameView, Seq<char>>(
                FrameView {
                    signal: SignalView { embedding: Seq::empty(), ..signal },
                    components: list,
                },
            )
        }),
{
    let text = frame_text(signal, list);
    vstd::utf8::encode_utf8_valid_utf8(text);
    vstd::utf8::encode_utf8_decode_utf8(text);
    lemma_head_read(signal, list);
    lemma_embedding_read(signal, list);
    law_hex_round_trip(signal.payload);
    assert(label(signal.signal_type) == label(signal.signal_type));
    lemma_labels_differ(
        type_labelled(label(signal.signal_type)).unwrap(),
        signal.signal_type,
    );
}

/// Whatever text `show` writes for `value` can stand in a list, and `parse` reads `value` from it.
pub open spec fn reads_back<W: Fn(u64) -> String, P: Fn(&str) -> Option<u64>>(
    show: W,
    parse: P,
    value: u64,
) -> bool {
    forall|text: Seq<char>| #[trigger]
        is_shown(show, value, text) ==> {
            &&& text.len() > 0
            &&& is_component(text)
            &&& forall|read: Option<u64>| #[trigger]
                is_parsed(parse, text, read) ==> read == Some(value)
        }
}

/// A signal turned into a message can be read, and what is read is the same signal in every part,
/// as long as each component of its embedding is read back from the text that it is written as.
pub proof fn law_round_trip<W: Fn(u64) -> String, P: Fn(&str) -> Option<u64>>(
    signal: SignalView,
    show: W,
    parse: P,
    data: Seq<u8>,
)
    requires
        is_written(show, signal, data),
        forall|i: int|
            0 <= i < signal.embedding.len() ==> reads_back(
                show,
                parse,
                #[trigger] signal.embedding[i],
            ),
    ensures
        is_readable(data),
        forall|r: Result<Signal, &'static str>| #[trigger]
            is_read(parse, data, r) ==> r is Ok && r->Ok_0@ == signal,
{
    let list = choose|list: Seq<Seq<char>>|
        are_shown(show, signal.embedding, list) && data == encode_utf8(
            #[trigger] frame_text(signal, list),
        );
    assert forall|i: int| 0 <= i < list.len() implies is_component(#[trigger] list[i])
        && list[i].len() > 0 by {
        assert(reads_back(show, parse, signal.embedding[i]));
        assert(is_shown(show, signal.embedding[i], list[i]));
    }
    law_frame_round_trip(signal, list);
    assert forall|r: Result<Signal, &'static str>| #[trigger]
        is_read(parse, data, r) implies r is Ok && r->Ok_0@ == signal by {
        let frame = FrameView {
            signal: SignalView { embedding: Seq::empty(), ..signal },
            components: list,
        };
        let values = choose|values: Seq<Option<u64>>|
            are_parsed(parse, list, values) && is_result(r, #[trigger] completed(frame, values));
        assert forall|i: int| 0 <= i < values.len() implies #[trigger] values[i] == Some(
            signal.embedding[i],
        ) by {
            assert(reads_back(show, parse, signal.embedding[i]));
            assert(is_shown(show, signal.embedding[i], list[i]));
            assert(is_parsed(parse, list[i], values[i]));
        }
        assert(!values.contains(None)) by {
            if values.contains(None) {
                let i = choose|i: int| 0 <= i < values.len() && values[i] is None;
                assert(values[i] == Some(signal.embedding[i]));
            }
        }
        assert(values.map_values(|v: Option<u64>| v.unwrap()) =~= signal.embedding);
        assert(completed(frame, values) == Ok::<SignalView, Seq<char>>(signal));
    }
}

// Messages as JSON

/// The members of the object that a message is.
pub open spec fn json_members(
    signal: SignalView,
    list: Seq<Seq<char>>,
) -> Seq<(Seq<char>, Value)> {
    seq![
        ("id"@, Value::Number(decimal(signal.id as nat))),
        ("source"@, Value::Text(escaped(signal.source))),
        ("target"@, Value::Text(escaped(signal.target))),
        ("signal_type"@, Value::Text(label(signal.signal_type))),
        ("priority"@, Value::Number(decimal(signal.priority as nat))),
        ("timestamp"@, Value::Number(decimal(signal.timestamp as nat))),
        ("payload"@, Value::Text(hex_text(signal.payload))),
        ("embedding"@, Value::Numbers(list)),
    ]
}

/// A member ahead of the embedding is written as a member of the object, and a comma.
proof fn lemma_field_is_member(signal: SignalView, list: Seq<Seq<char>>, k: int)
    requires
        0 <= k < 7,
    ensures
        field(members_of(signal)[k]) == member_texts(json_members(signal, list))[k].push(','),
{
    lemma_punctuation();
    let m = members_of(signal)[k];
    let text = member_texts(json_members(signal, list))[k];
    if m.quoted {
        assert(text == seq!['"'] + m.name + seq!['"', ':'] + (seq!['"'] + m.value + seq!['"']));
        assert(string_field(m.name, m.value) =~= text.push(','));
    } else {
        assert(text == seq!['"'] + m.name + seq!['"', ':'] + m.value);
        assert(number_field(m.name, m.value) =~= text.push(','));
    }
}

/// A message up to its `k`th member is the opening brace, the members joined, and a comma.
proof fn lemma_beginning_joined(signal: SignalView, list: Seq<Seq<char>>, k: nat)
    requires
        1 <= k <= 7,
    ensures
        beginning(members_of(signal), k) == (seq!['{'] + join(
            member_texts(json_members(signal, list)).take(k as int),
        )).push(','),
    decreases k,
{
    let all = member_texts(json_members(signal, list));
    let done = all.take(k as int);
    lemma_punctuation();
    lemma_field_is_member(signal, list, k - 1);
    assert(done.last() == all[k - 1]);
    if k == 1 {
        assert(beginning(members_of(signal), 0) == seq!['{']);
        assert(beginning(members_of(signal), k) =~= (seq!['{'] + join(done)).push(','));
    } else {
        let j = (k - 1) as nat;
        lemma_beginning_joined(signal, list, j);
        assert(done.drop_last() =~= all.take(j as int));
        assert(beginning(members_of(signal), k) =~= (seq!['{'] + join(done)).push(','));
    }
}

/// What needs no escape: names of members, labels, and hexadecimal text.
proof fn lemma_bodies(signal: SignalView)
    ensures
        is_string_body("id"@),
        is_string_body("source"@),
        is_string_body("target"@),
        is_string_body("signal_type"@),
        is_string_body("priority"@),
        is_string_body("timestamp"@),
        is_string_body("payload"@),
        is_string_body("embedding"@),
        is_string_body(label(signal.signal_type)),
        is_string_body(hex_text(signal.payload)),
{
    reveal_strlit("id");
    reveal_strlit("source");
    reveal_strlit("target");
    reveal_strlit("signal_type");
    reveal_strlit("priority");
    reveal_strlit("timestamp");
    reveal_strlit("payload");
    reveal_strlit("embedding");
    lemma_plain_is_body("id"@);
    lemma_plain_is_body("source"@);
    lemma_plain_is_body("target"@);
    lemma_plain_is_body("signal_type"@);
    lemma_plain_is_body("priority"@);
    lemma_plain_is_body("timestamp"@);
    lemma_plain_is_body("payload"@);
    lemma_plain_is_body("embedding"@);
    lemma_label_plain(signal.signal_type);
    lemma_plain_is_body(label(signal.signal_type));
    assert forall|i: int| 0 <= i < hex_text(signal.payload).len() implies !is_special(
        #[trigger] hex_text(signal.payload)[i],
    ) by {
        lemma_hex_text_plain(signal.payload, i);
    }
    lemma_plain_is_body(hex_text(signal.payload));
}

/// Whatever the signal, its message is a JSON object, as long as the components are written as JSON
/// numbers. The strings in it say the names of the rooms.
pub proof fn law_message_is_json(signal: SignalView, list: Seq<Seq<char>>)
    requires
        forall|i: int| 0 <= i < list.len() ==> is_number(#[trigger] list[i]),
    ensures
        frame_text(signal, list) == object_text(json_members(signal, list)),
        is_object(json_members(signal, list)),
        unescaped(escaped(signal.source)) == signal.source,
        unescaped(escaped(signal.target)) == signal.target,
{
    let members = json_members(signal, list);
    let all = member_texts(members);
    lemma_punctuation();
    lemma_keys();
    lemma_text_of_members(signal, list);
    lemma_beginning_joined(signal, list, 7);
    assert(all.drop_last() =~= all.take(7));
    assert(all.last() == seq!['"'] + "embedding"@ + seq!['"', ':'] + (seq!['['] + join(list)
        + seq![']']));
    assert(frame_text(signal, list) =~= object_text(members));
    lemma_bodies(signal);
    lemma_escaped_is_body(signal.source);
    lemma_escaped_is_body(signal.target);
    lemma_decimal_is_number(signal.id as nat);
    lemma_decimal_is_number(signal.priority as nat);
    lemma_decimal_is_number(signal.timestamp as nat);
    law_escape_round_trip(signal.source);
    law_escape_round_trip(signal.target);
}

} // verus!
