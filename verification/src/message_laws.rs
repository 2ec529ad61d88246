//! What messages look like, and what is read from them, down to the characters.
use crate::a2a::are_parsed;
use crate::a2a::are_shown;
use crate::a2a::completed;
use crate::a2a::components_of;
use crate::a2a::frame_of;
use crate::a2a::frame_text;
use crate::a2a::head_of;
use crate::a2a::is_parsed;
use crate::a2a::is_read;
use crate::a2a::is_readable;
use crate::a2a::is_result;
use crate::a2a::is_shown;
use crate::a2a::is_written;
use crate::a2a::label;
use crate::a2a::lemma_labels_differ;
use crate::a2a::name_after;
use crate::a2a::number_after;
use crate::a2a::number_field;
use crate::a2a::string_after;
use crate::a2a::string_field;
use crate::a2a::type_labelled;
use crate::a2a::FrameView;
use crate::hex::decoded;
use crate::hex::hex_text;
use crate::hex::hex_value;
use crate::hex::splits_in_pairs;
use crate::json::escaped;
use crate::json::string_end;
use crate::json::unescaped;
use crate::signal::Signal;
use crate::signal::SignalType;
use crate::signal::SignalView;
use crate::text::decimal;
use crate::text::digits_value;
use crate::text::first_occurrence;
use crate::text::is_white;
use crate::text::join;
use crate::text::law_decimal_round_trip;
use crate::text::lemma_digits_end;
use crate::text::lemma_first_occurrence_is;
use crate::text::lemma_next_position;
use crate::text::lemma_split_join;
use crate::text::occurs_first_at;
use crate::text::split;
use crate::text::trim;
use crate::text::trim_end;
use crate::text::trim_start;
use vstd::prelude::*;
use vstd::utf8::decode_utf8;
use vstd::utf8::encode_utf8;
use vstd::utf8::valid_utf8;

verus! {

// Types

/// Each signal type goes by its own name, in writing and in reading.
pub proof fn law_type_names()
    ensures
        label(SignalType::Tick) == "Tick"@,
        label(SignalType::Murmur) == "Murmur"@,
        label(SignalType::Prediction) == "Prediction"@,
        label(SignalType::Surprise) == "Surprise"@,
        label(SignalType::GcReport) == "GcReport"@,
        label(SignalType::VibeShift) == "VibeShift"@,
        label(SignalType::LoRATrigger) == "LoRATrigger"@,
        label(SignalType::BalanceAlert) == "BalanceAlert"@,
        label(SignalType::CorrelationUpdate) == "CorrelationUpdate"@,
        label(SignalType::EnergyUpdate) == "EnergyUpdate"@,
        type_labelled("Tick"@) == Some(SignalType::Tick),
        type_labelled("Murmur"@) == Some(SignalType::Murmur),
        type_labelled("Prediction"@) == Some(SignalType::Prediction),
        type_labelled("Surprise"@) == Some(SignalType::Surprise),
        type_labelled("GcReport"@) == Some(SignalType::GcReport),
        type_labelled("VibeShift"@) == Some(SignalType::VibeShift),
        type_labelled("LoRATrigger"@) == Some(SignalType::LoRATrigger),
        type_labelled("BalanceAlert"@) == Some(SignalType::BalanceAlert),
        type_labelled("CorrelationUpdate"@) == Some(SignalType::CorrelationUpdate),
        type_labelled("EnergyUpdate"@) == Some(SignalType::EnergyUpdate),
{
    lemma_type_of_label(SignalType::Tick);
    lemma_type_of_label(SignalType::Murmur);
    lemma_type_of_label(SignalType::Prediction);
    lemma_type_of_label(SignalType::Surprise);
    lemma_type_of_label(SignalType::GcReport);
    lemma_type_of_label(SignalType::VibeShift);
    lemma_type_of_label(SignalType::LoRATrigger);
    lemma_type_of_label(SignalType::BalanceAlert);
    lemma_type_of_label(SignalType::CorrelationUpdate);
    lemma_type_of_label(SignalType::EnergyUpdate);
}

proof fn lemma_type_of_label(t: SignalType)
    ensures
        type_labelled(label(t)) == Some(t),
{
    assert(label(t) == label(t));
    lemma_labels_differ(type_labelled(label(t)).unwrap(), t);
}

/// Any other name names no signal type.
pub proof fn law_unknown_type_name(name: Seq<char>)
    requires
        name != "Tick"@,
        name != "Murmur"@,
        name != "Prediction"@,
        name != "Surprise"@,
        name != "GcReport"@,
        name != "VibeShift"@,
        name != "LoRATrigger"@,
        name != "BalanceAlert"@,
        name != "CorrelationUpdate"@,
        name != "EnergyUpdate"@,
    ensures
        type_labelled(name) is None,
{
}

// Writing

/// A message, member by member.
pub proof fn law_message_text(signal: SignalView, list: Seq<Seq<char>>)
    ensures
        frame_text(signal, list) == "{"@ + ("\"id\":"@ + decimal(signal.id as nat) + ","@) + (
        "\"source\":\""@ + escaped(signal.source) + "\","@) + ("\"target\":\""@ + escaped(
            signal.target,
        ) + "\","@) + ("\"signal_type\":\""@ + (match signal.signal_type {
            SignalType::Tick => "Tick"@,
            SignalType::Murmur => "Murmur"@,
            SignalType::Prediction => "Prediction"@,
            SignalType::Surprise => "Surprise"@,
            SignalType::GcReport => "GcReport"@,
            SignalType::VibeShift => "VibeShift"@,
            SignalType::LoRATrigger => "LoRATrigger"@,
            SignalType::BalanceAlert => "BalanceAlert"@,
            SignalType::CorrelationUpdate => "CorrelationUpdate"@,
            SignalType::EnergyUpdate => "EnergyUpdate"@,
        }) + "\","@) + ("\"priority\":"@ + decimal(signal.priority as nat) + ","@) + (
        "\"timestamp\":"@ + decimal(signal.timestamp as nat) + ","@) + ("\"payload\":\""@
            + hex_text(signal.payload) + "\","@) + "\"embedding\":["@ + join(list) + "]}"@,
{
    lemma_number_field_text("id"@, "\"id\":"@, decimal(signal.id as nat));
    lemma_string_field_text("source"@, "\"source\":\""@, escaped(signal.source));
    lemma_string_field_text("target"@, "\"target\":\""@, escaped(signal.target));
    lemma_string_field_text("signal_type"@, "\"signal_type\":\""@, label(signal.signal_type));
    lemma_number_field_text("priority"@, "\"priority\":"@, decimal(signal.priority as nat));
    lemma_number_field_text("timestamp"@, "\"timestamp\":"@, decimal(signal.timestamp as nat));
    lemma_string_field_text("payload"@, "\"payload\":\""@, hex_text(signal.payload));
    lemma_key_texts();
}

proof fn lemma_key_texts()
    ensures
        "\"id\":"@ == "\""@ + "id"@ + "\":"@,
        "\"source\":\""@ == "\""@ + "source"@ + "\":\""@,
        "\"target\":\""@ == "\""@ + "target"@ + "\":\""@,
        "\"signal_type\":\""@ == "\""@ + "signal_type"@ + "\":\""@,
        "\"priority\":"@ == "\""@ + "priority"@ + "\":"@,
        "\"timestamp\":"@ == "\""@ + "timestamp"@ + "\":"@,
        "\"payload\":\""@ == "\""@ + "payload"@ + "\":\""@,
{
    reveal_strlit("\"");
    reveal_strlit("\":");
    reveal_strlit("\":\"");
    reveal_strlit("id");
    reveal_strlit("\"id\":");
    assert("\"id\":"@ =~= "\""@ + "id"@ + "\":"@);
    reveal_strlit("source");
    reveal_strlit("\"source\":\"");
    assert("\"source\":\""@ =~= "\""@ + "source"@ + "\":\""@);
    reveal_strlit("target");
    reveal_strlit("\"target\":\"");
    assert("\"target\":\""@ =~= "\""@ + "target"@ + "\":\""@);
    reveal_strlit("signal_type");
    reveal_strlit("\"signal_type\":\"");
    assert("\"signal_type\":\""@ =~= "\""@ + "signal_type"@ + "\":\""@);
    reveal_strlit("priority");
    reveal_strlit("\"priority\":");
    assert("\"priority\":"@ =~= "\""@ + "priority"@ + "\":"@);
    reveal_strlit("timestamp");
    reveal_strlit("\"timestamp\":");
    assert("\"timestamp\":"@ =~= "\""@ + "timestamp"@ + "\":"@);
    reveal_strlit("payload");
    reveal_strlit("\"payload\":\"");
    assert("\"payload\":\""@ =~= "\""@ + "payload"@ + "\":\""@);
}

proof fn lemma_number_field_text(name: Seq<char>, key: Seq<char>, value: Seq<char>)
    ensures
        key == "\""@ + name + "\":"@ ==> number_field(name, value) == key + value + ","@,
{
}

proof fn lemma_string_field_text(name: Seq<char>, key: Seq<char>, value: Seq<char>)
    ensures
        key == "\""@ + name + "\":\""@ ==> string_field(name, value) == key + value + "\","@,
{
}

/// A number is shown as a text, and a text read as a number or as none, exactly if the function for
/// it can give this.
pub proof fn law_shown_and_parsed<W: Fn(u64) -> String, P: Fn(&str) -> Option<u64>>(
    show: W,
    parse: P,
    value: u64,
    read: Option<u64>,
    text: Seq<char>,
)
    ensures
        is_shown(show, value, text) <==> exists|t: String|
            t@ == text && #[trigger] call_ensures(show, (value,), t),
        is_parsed(parse, text, read) <==> exists|t: &str|
            t@ == text && #[trigger] call_ensures(parse, (t,), read),
{
}

/// A message is the text of the signal in UTF-8, with a text for each component, in order, that it
/// is shown as.
pub proof fn law_written<W: Fn(u64) -> String>(show: W, signal: SignalView, data: Seq<u8>)
    requires
        is_written(show, signal, data),
    ensures
        exists|list: Seq<Seq<char>>|
            {
                &&& data == encode_utf8(#[trigger] frame_text(signal, list))
                &&& list.len() == signal.embedding.len()
                &&& forall|i: int|
                    0 <= i < list.len() ==> is_shown(
                        show,
                        signal.embedding[i],
                        #[trigger] list[i],
                    )
            },
{
    let list = choose|list: Seq<Seq<char>>|
        are_shown(show, signal.embedding, list) && data == encode_utf8(
            #[trigger] frame_text(signal, list),
        );
    assert forall|i: int| 0 <= i < list.len() implies is_shown(
        show,
        signal.embedding[i],
        #[trigger] list[i],
    ) by {
        assert(is_shown(show, signal.embedding[i], list[i]));
    }
    assert(data == encode_utf8(frame_text(signal, list)));
}

// Reading

/// A message is read exactly if it is UTF-8 and each of its parts can be read. What is read are the
/// parts behind these keys, the priority modulo 256.
pub proof fn law_message_read(data: Seq<u8>)
    ensures
        frame_of(data) matches Ok(frame) ==> {
            let s = decode_utf8(data);
            let signal = frame.signal;
            &&& valid_utf8(data)
            &&& number_after(s, "\"id\":"@) == Ok::<u64, Seq<char>>(signal.id)
            &&& name_after(s, "\"source\":\""@) == Ok::<Seq<char>, Seq<char>>(signal.source)
            &&& name_after(s, "\"target\":\""@) == Ok::<Seq<char>, Seq<char>>(signal.target)
            &&& string_after(s, "\"signal_type\":\""@) == Ok::<Seq<char>, Seq<char>>(
                match signal.signal_type {
                    SignalType::Tick => "Tick"@,
                    SignalType::Murmur => "Murmur"@,
                    SignalType::Prediction => "Prediction"@,
                    SignalType::Surprise => "Surprise"@,
                    SignalType::GcReport => "GcReport"@,
                    SignalType::VibeShift => "VibeShift"@,
                    SignalType::LoRATrigger => "LoRATrigger"@,
                    SignalType::BalanceAlert => "BalanceAlert"@,
                    SignalType::CorrelationUpdate => "CorrelationUpdate"@,
                    SignalType::EnergyUpdate => "EnergyUpdate"@,
                },
            )
            &&& number_after(s, "\"priority\":"@) matches Ok(p) && p % 256 == signal.priority
            &&& number_after(s, "\"timestamp\":"@) == Ok::<u64, Seq<char>>(signal.timestamp)
            &&& string_after(s, "\"payload\":\""@) matches Ok(text) && decoded(text) == Some(
                signal.payload,
            )
            &&& components_of(s) == Ok::<Seq<Seq<char>>, Seq<char>>(frame.components)
            &&& signal.embedding.len() == 0
        },
{
}

/// What is said of a message that cannot be read is the first of these things that is wrong with it,
/// in this order.
pub proof fn law_message_faults(data: Seq<u8>)
    ensures
        ({
            let s = decode_utf8(data);
            let id = number_after(s, "\"id\":"@);
            let source = name_after(s, "\"source\":\""@);
            let target = name_after(s, "\"target\":\""@);
            let kind = string_after(s, "\"signal_type\":\""@);
            let priority = number_after(s, "\"priority\":"@);
            let time = number_after(s, "\"timestamp\":"@);
            let payload = string_after(s, "\"payload\":\""@);
            let components = components_of(s);
            let fault = |e: Seq<char>| Err::<FrameView, Seq<char>>(e);
            if !valid_utf8(data) {
                frame_of(data) == fault("invalid utf8"@)
            } else if id is Err {
                frame_of(data) == fault(id->Err_0)
            } else if source is Err {
                frame_of(data) == fault(source->Err_0)
            } else if target is Err {
                frame_of(data) == fault(target->Err_0)
            } else if kind is Err {
                frame_of(data) == fault(kind->Err_0)
            } else if priority is Err {
                frame_of(data) == fault(priority->Err_0)
            } else if time is Err {
                frame_of(data) == fault(time->Err_0)
            } else if payload is Err {
                frame_of(data) == fault(payload->Err_0)
            } else if decoded(payload->Ok_0) is None {
                frame_of(data) == fault("invalid hex payload"@)
            } else if type_labelled(kind->Ok_0) is None {
                frame_of(data) == fault("unknown signal type"@)
            } else if components is Err {
                frame_of(data) == fault(components->Err_0)
            } else {
                frame_of(data) is Ok
            }
        }),
{
}

/// Every message can be read but one whose payload is to be decoded and cannot be cut into pairs.
pub proof fn law_readable(data: Seq<u8>)
    ensures
        !valid_utf8(data) ==> is_readable(data),
        head_of(decode_utf8(data)) is Err ==> is_readable(data),
        valid_utf8(data) && head_of(decode_utf8(data)) is Ok ==> {
            &&& string_after(decode_utf8(data), "\"payload\":\""@) is Ok
            &&& is_readable(data) <==> splits_in_pairs(
                string_after(decode_utf8(data), "\"payload\":\""@)->Ok_0,
            )
        },
{
}

/// A message that was taken apart gives its signal, with the numbers that its components were read
/// as, or the fault that one of them was read as none.
pub proof fn law_completed(frame: FrameView, values: Seq<Option<u64>>)
    ensures
        (forall|i: int| 0 <= i < values.len() ==> (#[trigger] values[i]) is Some) ==> {
            &&& completed(frame, values) is Ok
            &&& completed(frame, values)->Ok_0 == (SignalView {
                embedding: completed(frame, values)->Ok_0.embedding,
                ..frame.signal
            })
            &&& completed(frame, values)->Ok_0.embedding.len() == values.len()
            &&& forall|i: int|
                0 <= i < values.len() ==> Some(
                    #[trigger] completed(frame, values)->Ok_0.embedding[i],
                ) == values[i]
        },
        (exists|i: int| 0 <= i < values.len() && (#[trigger] values[i]) is None) ==> completed(
            frame,
            values,
        ) == Err::<SignalView, Seq<char>>("bad float"@),
{
    if exists|i: int| 0 <= i < values.len() && (#[trigger] values[i]) is None {
        let i = choose|i: int| 0 <= i < values.len() && (#[trigger] values[i]) is None;
        assert(values[i] == None::<u64>);
        assert(values.contains(None));
    } else {
        assert(!values.contains(None));
    }
}

/// What is read of a message is its signal, with each component as its text is read. The first
/// component that is read as no number is the fault.
pub proof fn law_read<P: Fn(&str) -> Option<u64>>(
    parse: P,
    data: Seq<u8>,
    r: Result<Signal, &'static str>,
)
    requires
        is_read(parse, data, r),
    ensures
        frame_of(data) matches Err(words) ==> (r matches Err(e) && e@ == words),
        frame_of(data) is Ok && r is Ok ==> {
            let frame = frame_of(data)->Ok_0;
            let signal = r->Ok_0@;
            &&& signal == (SignalView { embedding: signal.embedding, ..frame.signal })
            &&& signal.embedding.len() == frame.components.len()
            &&& forall|i: int|
                0 <= i < frame.components.len() ==> is_parsed(
                    parse,
                    #[trigger] frame.components[i],
                    Some(signal.embedding[i]),
                )
        },
        frame_of(data) is Ok && r is Err ==> {
            let frame = frame_of(data)->Ok_0;
            &&& r->Err_0@ == "bad float"@
            &&& exists|i: int|
                0 <= i < frame.components.len() && is_parsed(
                    parse,
                    #[trigger] frame.components[i],
                    None,
                )
        },
{
    if let Ok(frame) = frame_of(data) {
        let values = choose|values: Seq<Option<u64>>|
            are_parsed(parse, frame.components, values) && is_result(
                r,
                #[trigger] completed(frame, values),
            );
        law_completed(frame, values);
        if exists|i: int| 0 <= i < values.len() && (#[trigger] values[i]) is None {
            let i = choose|i: int| 0 <= i < values.len() && (#[trigger] values[i]) is None;
            assert(values[i] == None::<u64>);
            assert(is_parsed(parse, frame.components[i], values[i]));
            assert(is_parsed(parse, frame.components[i], None));
        } else {
            assert(values.len() == frame.components.len()) by {
                if values.len() < frame.components.len() {
                    assert(values[values.len() - 1] is None);
                }
            }
            let signal = r->Ok_0@;
            assert forall|i: int| 0 <= i < frame.components.len() implies is_parsed(
                parse,
                #[trigger] frame.components[i],
                Some(signal.embedding[i]),
            ) by {
                assert(is_parsed(parse, frame.components[i], values[i]));
                assert(Some(completed(frame, values)->Ok_0.embedding[i]) == values[i]);
            }
        }
    }
}

// Looking for keys

/// A key is found at the first place where it stands, and not at all exactly if it stands nowhere.
pub proof fn law_key_is_found(s: Seq<char>, key: Seq<char>, p: int)
    ensures
        first_occurrence(s, key) == Some(p) <==> {
            &&& 0 <= p <= s.len() - key.len()
            &&& s.subrange(p, p + key.len()) == key
            &&& forall|q: int|
                0 <= q < p ==> #[trigger] s.subrange(q, q + key.len()) != key
        },
        first_occurrence(s, key) is None <==> forall|q: int|
            0 <= q <= s.len() - key.len() ==> #[trigger] s.subrange(q, q + key.len()) != key,
{
    if occurs_first_at(s, key, p) {
        lemma_first_occurrence_is(s, key, p);
    }
    if first_occurrence(s, key) is Some {
        let j = first_occurrence(s, key)->0;
        assert(occurs_first_at(s, key, j));
        assert(s.subrange(j, j + key.len()) == key);
        assert forall|q: int| 0 <= q < j implies #[trigger] s.subrange(q, q + key.len()) != key by {
            assert(!crate::text::occurs_at(s, key, q));
        }
    } else {
        assert forall|q: int| 0 <= q <= s.len() - key.len() implies #[trigger] s.subrange(
            q,
            q + key.len(),
        ) != key by {
            if s.subrange(q, q + key.len()) == key {
                lemma_least_occurrence(s, key, q);
            }
        }
    }
    if 0 <= p <= s.len() - key.len() && s.subrange(p, p + key.len()) == key && (forall|q: int|
        0 <= q < p ==> #[trigger] s.subrange(q, q + key.len()) != key) {
        assert(occurs_first_at(s, key, p)) by {
            assert forall|j: int| 0 <= j < p implies !#[trigger] crate::text::occurs_at(
                s,
                key,
                j,
            ) by {
                assert(s.subrange(j, j + key.len()) != key);
            }
        }
        lemma_first_occurrence_is(s, key, p);
    }
}

proof fn lemma_least_occurrence(s: Seq<char>, key: Seq<char>, q: int)
    requires
        crate::text::occurs_at(s, key, q),
    ensures
        first_occurrence(s, key) is Some,
    decreases q,
{
    if exists|j: int| 0 <= j < q && crate::text::occurs_at(s, key, j) {
        let j = choose|j: int| 0 <= j < q && crate::text::occurs_at(s, key, j);
        lemma_least_occurrence(s, key, j);
    } else {
        assert(occurs_first_at(s, key, q));
    }
}

/// The string behind a key reaches up to the next quotation mark.
pub proof fn law_string_after(s: Seq<char>, key: Seq<char>, p: int, end: int)
    requires
        first_occurrence(s, key) == Some(p),
        p + key.len() <= end <= s.len(),
        forall|j: int| p + key.len() <= j < end ==> #[trigger] s[j] != '"',
    ensures
        end < s.len() && s[end] == '"' ==> string_after(s, key) == Ok::<Seq<char>, Seq<char>>(
            s.subrange(p + key.len(), end),
        ),
        end == s.len() ==> string_after(s, key) == Err::<Seq<char>, Seq<char>>(
            "unterminated string"@,
        ),
{
    law_key_is_found(s, key, p);
    if end == s.len() || s[end] == '"' {
        lemma_next_position(s, '"', p + key.len(), end);
    }
}

/// A key that does not stand in a message is missed.
pub proof fn law_key_is_missed(s: Seq<char>, key: Seq<char>)
    requires
        first_occurrence(s, key) is None,
    ensures
        string_after(s, key) == Err::<Seq<char>, Seq<char>>("key not found"@),
        name_after(s, key) == Err::<Seq<char>, Seq<char>>("key not found"@),
        number_after(s, key) == Err::<u64, Seq<char>>("key not found"@),
        key == "\"embedding\":["@ ==> components_of(s) == Err::<Seq<Seq<char>>, Seq<char>>(
            "embedding key not found"@,
        ),
{
}

/// The number behind a key is that of the digits up to the first character that is none.
pub proof fn law_number_after(s: Seq<char>, key: Seq<char>, p: int, end: int)
    requires
        first_occurrence(s, key) == Some(p),
        p + key.len() <= end <= s.len(),
        forall|j: int| p + key.len() <= j < end ==> '0' <= #[trigger] s[j] <= '9',
        end < s.len() ==> !('0' <= s[end] <= '9'),
    ensures
        ({
            let digits = s.subrange(p + key.len(), end);
            &&& digits.len() == 0 || digits_value(digits) > u64::MAX ==> number_after(s, key)
                == Err::<u64, Seq<char>>("parse error"@)
            &&& digits.len() > 0 && digits_value(digits) <= u64::MAX ==> number_after(s, key)
                == Ok::<u64, Seq<char>>(digits_value(digits) as u64)
        }),
{
    law_key_is_found(s, key, p);
    lemma_digits_end(s, p + key.len(), end);
}

/// The name behind a key is what the string says that reaches up to the next quotation mark that is
/// not escaped.
pub proof fn law_name_after(s: Seq<char>, key: Seq<char>, p: int)
    requires
        first_occurrence(s, key) == Some(p),
    ensures
        ({
            let start = p + key.len();
            let end = string_end(s, start);
            &&& end < s.len() ==> s[end] == '"' && name_after(s, key) == Ok::<
                Seq<char>,
                Seq<char>,
            >(unescaped(s.subrange(start, end)))
            &&& end >= s.len() ==> name_after(s, key) == Err::<Seq<char>, Seq<char>>(
                "unterminated string"@,
            )
        }),
{
    law_key_is_found(s, key, p);
    lemma_string_end(s, p + key.len());
}

proof fn lemma_string_end(s: Seq<char>, from: int)
    requires
        0 <= from <= s.len(),
    ensures
        from <= string_end(s, from) <= s.len(),
        string_end(s, from) < s.len() ==> s[string_end(s, from)] == '"',
    decreases s.len() - from,
{
    if from < s.len() && s[from] != '"' {
        if s[from] == '\\' && from + 1 < s.len() {
            lemma_string_end(s, from + 2);
        } else {
            lemma_string_end(s, from + 1);
        }
    }
}

/// A string without a backslash ends at its first quotation mark.
pub proof fn law_plain_string_end(s: Seq<char>, from: int, end: int)
    requires
        0 <= from <= end <= s.len(),
        forall|j: int| from <= j < end ==> #[trigger] s[j] != '"' && s[j] != '\\',
        end < s.len() ==> s[end] == '"',
    ensures
        string_end(s, from) == end,
    decreases end - from,
{
    if from < end {
        assert(s[from] != '"' && s[from] != '\\');
        law_plain_string_end(s, from + 1, end);
    }
}

/// A string goes on behind a backslash and the character that it escapes, and behind any other
/// character but a quotation mark, where it ends.
pub proof fn law_string_goes_on(s: Seq<char>, from: int)
    requires
        0 <= from < s.len(),
    ensures
        s[from] == '"' ==> string_end(s, from) == from,
        s[from] == '\\' && from + 1 < s.len() ==> string_end(s, from) == string_end(s, from + 2),
        s[from] != '"' && s[from] != '\\' ==> string_end(s, from) == string_end(s, from + 1),
        s[from] == '\\' && from + 1 == s.len() ==> string_end(s, from) == s.len(),
{
    if from + 1 == s.len() {
        assert(string_end(s, from + 1) == s.len());
    }
}

/// The components of a message are the pieces between its square brackets, split at the commas, each
/// without the white space around it; none at all between brackets with nothing in between.
pub proof fn law_components(s: Seq<char>, p: int, end: int)
    requires
        first_occurrence(s, "\"embedding\":["@) == Some(p),
        p + "\"embedding\":["@.len() <= end <= s.len(),
        forall|j: int| p + "\"embedding\":["@.len() <= j < end ==> #[trigger] s[j] != ']',
    ensures
        ({
            let start = p + "\"embedding\":["@.len();
            let inner = s.subrange(start, end);
            &&& end == s.len() ==> components_of(s) == Err::<Seq<Seq<char>>, Seq<char>>(
                "embedding array not closed"@,
            )
            &&& end < s.len() && s[end] == ']' && start == end ==> components_of(s) == Ok::<
                Seq<Seq<char>>,
                Seq<char>,
            >(Seq::empty())
            &&& end < s.len() && s[end] == ']' && start < end ==> {
                &&& components_of(s) is Ok
                &&& components_of(s)->Ok_0.len() == split(inner).len()
                &&& forall|i: int|
                    0 <= i < split(inner).len() ==> #[trigger] components_of(s)->Ok_0[i] == trim(
                        split(inner)[i],
                    )
            }
        }),
{
    law_key_is_found(s, "\"embedding\":["@, p);
    if end == s.len() || s[end] == ']' {
        lemma_next_position(s, ']', p + "\"embedding\":["@.len(), end);
    }
}

// Lists and white space

/// Texts are joined with a comma between each two.
pub proof fn law_join(texts: Seq<Seq<char>>, last: Seq<char>)
    ensures
        join(Seq::empty()) == Seq::<char>::empty(),
        join(seq![last]) == last,
        texts.len() > 0 ==> join(texts.push(last)) == join(texts) + seq![','] + last,
{
    if texts.len() > 0 {
        assert(texts.push(last).drop_last() =~= texts);
        assert(join(texts).push(',') + last =~= join(texts) + seq![','] + last);
    }
}

/// Splitting joined texts, of which none holds a comma, gives them back: so it does with every text,
/// since every text is joined of such pieces.
pub proof fn law_split(texts: Seq<Seq<char>>)
    requires
        texts.len() > 0,
        forall|i: int| 0 <= i < texts.len() ==> !(#[trigger] texts[i]).contains(','),
    ensures
        split(join(texts)) == texts,
{
    lemma_split_join(texts);
}

/// What separates words: the tabulator and the characters up to the carriage return, the space, and
/// the others that Unicode counts as white space.
pub proof fn law_white_space(c: char)
    ensures
        is_white(c) <==> {
            ||| '\t' <= c <= '\r'
            ||| c == ' '
            ||| c == '\u{85}'
            ||| c == '\u{a0}'
            ||| c == '\u{1680}'
            ||| '\u{2000}' <= c <= '\u{200a}'
            ||| c == '\u{2028}'
            ||| c == '\u{2029}'
            ||| c == '\u{202f}'
            ||| c == '\u{205f}'
            ||| c == '\u{3000}'
        },
{
}

/// Trimming takes away white space from both ends, all of it and nothing else.
pub proof fn law_trim(s: Seq<char>, i: int, j: int)
    requires
        0 <= i <= j <= s.len(),
        forall|k: int| 0 <= k < i ==> is_white(#[trigger] s[k]),
        forall|k: int| j <= k < s.len() ==> is_white(#[trigger] s[k]),
        i < j ==> !is_white(s[i]) && !is_white(s[j - 1]),
        i == j ==> j == s.len(),
    ensures
        trim(s) == s.subrange(i, j),
{
    lemma_trim_start(s, i);
    let t = s.skip(i);
    assert forall|k: int| j - i <= k < t.len() implies is_white(#[trigger] t[k]) by {
        assert(t[k] == s[k + i]);
    }
    if i < j {
        assert(t[j - i - 1] == s[j - 1]);
    }
    lemma_trim_end(t, j - i);
    assert(t.take(j - i) =~= s.subrange(i, j));
}

proof fn lemma_trim_start(s: Seq<char>, i: int)
    requires
        0 <= i <= s.len(),
        forall|k: int| 0 <= k < i ==> is_white(#[trigger] s[k]),
        i < s.len() ==> !is_white(s[i]),
    ensures
        trim_start(s) == s.skip(i),
    decreases i,
{
    if i > 0 {
        let rest = s.drop_first();
        assert(is_white(s[0]));
        assert forall|k: int| 0 <= k < i - 1 implies is_white(#[trigger] rest[k]) by {
            assert(rest[k] == s[k + 1]);
        }
        lemma_trim_start(rest, i - 1);
        assert(rest.skip(i - 1) =~= s.skip(i));
    } else {
        assert(s.skip(0) =~= s);
    }
}

proof fn lemma_trim_end(s: Seq<char>, j: int)
    requires
        0 <= j <= s.len(),
        forall|k: int| j <= k < s.len() ==> is_white(#[trigger] s[k]),
        j > 0 ==> !is_white(s[j - 1]),
    ensures
        trim_end(s) == s.take(j),
    decreases s.len() - j,
{
    if j < s.len() {
        let rest = s.drop_last();
        assert(is_white(s[s.len() - 1]));
        assert forall|k: int| j <= k < rest.len() implies is_white(#[trigger] rest[k]) by {
            assert(rest[k] == s[k]);
        }
        lemma_trim_end(rest, j);
        assert(rest.take(j) =~= s.take(j));
    } else {
        assert(s.take(j) =~= s);
    }
}

// Numbers

/// A run of digits stands for its number in base ten: each digit more counts ten times what stood
/// there, and its own value.
pub proof fn law_digits_value(s: Seq<char>, d: int)
    requires
        0 <= d < 10,
    ensures
        digits_value(Seq::empty()) == 0,
        digits_value(s.push("0123456789"@[d])) == 10 * digits_value(s) + d,
{
    reveal_strlit("0123456789");
    assert(s.push("0123456789"@[d]).drop_last() =~= s);
    assert("0123456789"@[d] as int == 48 + d);
}

/// The decimal text of a number is the run of digits that stands for it and that no zero leads.
pub proof fn law_decimal(n: nat)
    ensures
        digits_value(decimal(n)) == n,
        decimal(n).len() > 0,
        forall|i: int| 0 <= i < decimal(n).len() ==> '0' <= #[trigger] decimal(n)[i] <= '9',
        decimal(n).len() > 1 ==> decimal(n)[0] != '0',
{
    law_decimal_round_trip(n);
    assert forall|i: int| 0 <= i < decimal(n).len() implies '0' <= #[trigger] decimal(n)[i]
        <= '9' by {
        assert(crate::text::is_digit(decimal(n)[i]));
    }
    if n >= 10 {
        lemma_decimal_head(n);
    }
}

proof fn lemma_decimal_head(n: nat)
    requires
        n > 0,
    ensures
        decimal(n).len() > 0,
        decimal(n)[0] != '0',
    decreases n,
{
    if n >= 10 {
        lemma_decimal_head(n / 10);
    }
}

// Hexadecimal text

/// Each byte is written as two hexadecimal digits in lower case, the higher one first.
pub proof fn law_hex_text(data: Seq<u8>, i: int)
    requires
        0 <= i < data.len(),
    ensures
        hex_text(data).len() == 2 * data.len(),
        hex_text(data)[2 * i] == "0123456789abcdef"@[data[i] as int / 16],
        hex_text(data)[2 * i + 1] == "0123456789abcdef"@[data[i] as int % 16],
{
    reveal_strlit("0123456789abcdef");
    assert((2 * i) / 2 == i && (2 * i) % 2 == 0 && (2 * i + 1) / 2 == i && (2 * i + 1) % 2 == 1);
    lemma_hex_alphabet(data[i] as int / 16);
    lemma_hex_alphabet(data[i] as int % 16);
}

proof fn lemma_hex_alphabet(v: int)
    requires
        0 <= v < 16,
    ensures
        crate::hex::hex_digit(v) == "0123456789abcdef"@[v],
        hex_value("0123456789abcdef"@[v]) == Some(v),
        hex_value("0123456789ABCDEF"@[v]) == Some(v),
{
    reveal_strlit("0123456789abcdef");
    reveal_strlit("0123456789ABCDEF");
    assert("0123456789abcdef"@[v] as int == if v < 10 {
        48 + v
    } else {
        87 + v
    });
    assert("0123456789ABCDEF"@[v] as int == if v < 10 {
        48 + v
    } else {
        55 + v
    });
}

/// The hexadecimal digits are these, in either case, and no other character is one.
pub proof fn law_hex_digits(c: char, v: int)
    ensures
        0 <= v < 16 ==> hex_value("0123456789abcdef"@[v]) == Some(v),
        0 <= v < 16 ==> hex_value("0123456789ABCDEF"@[v]) == Some(v),
        hex_value(c) matches Some(w) ==> 0 <= w < 16 && (c == "0123456789abcdef"@[w] || c
            == "0123456789ABCDEF"@[w]),
{
    if 0 <= v < 16 {
        lemma_hex_alphabet(v);
    }
    if hex_value(c) is Some {
        let w = hex_value(c)->0;
        lemma_hex_alphabet(w);
        reveal_strlit("0123456789abcdef");
        reveal_strlit("0123456789ABCDEF");
        assert("0123456789abcdef"@[w] as int == c as int || "0123456789ABCDEF"@[w] as int
            == c as int);
    }
}

/// Hexadecimal text is read pair by pair: two digits are a byte, and so is one digit behind a plus
/// sign; any other pair spoils the text, and so does a character that is left over.
pub proof fn law_decoded(high: char, low: char, rest: Seq<char>)
    ensures
        decoded(Seq::empty()) == Some(Seq::<u8>::empty()),
        decoded(seq![high]) is None,
        hex_value(high) is Some && hex_value(low) is Some && decoded(rest) is Some ==> decoded(
            seq![high, low] + rest,
        ) == Some(seq![(16 * hex_value(high)->0 + hex_value(low)->0) as u8] + decoded(rest)->0),
        high == '+' && hex_value(low) is Some && decoded(rest) is Some ==> decoded(
            seq![high, low] + rest,
        ) == Some(seq![hex_value(low)->0 as u8] + decoded(rest)->0),
        decoded(rest) is None ==> decoded(seq![high, low] + rest) is None,
        hex_value(low) is None ==> decoded(seq![high, low] + rest) is None,
        hex_value(high) is None && high != '+' ==> decoded(seq![high, low] + rest) is None,
{
    let s = seq![high, low] + rest;
    assert(s[0] == high && s[1] == low);
    assert(s.skip(2) =~= rest);
}

/// Which texts can be cut into pairs of bytes, as far as they are read: a character of two bytes is a
/// pair, and so are two of one byte; what follows matters only if the pair stands for a byte.
pub proof fn law_splits_in_pairs(a: char, b: char, rest: Seq<char>)
    ensures
        splits_in_pairs(Seq::empty()),
        0x80 <= (a as u32) < 0x800 ==> splits_in_pairs(seq![a] + rest),
        (a as u32) >= 0x800 ==> !splits_in_pairs(seq![a] + rest),
        (a as u32) < 0x80 ==> !splits_in_pairs(seq![a]),
        (a as u32) < 0x80 && (b as u32) >= 0x80 ==> !splits_in_pairs(seq![a, b] + rest),
        (a as u32) < 0x80 && (b as u32) < 0x80 ==> {
            let byte = hex_value(b) is Some && (hex_value(a) is Some || a == '+');
            splits_in_pairs(seq![a, b] + rest) <==> (byte ==> splits_in_pairs(rest))
        },
{
    let s = seq![a, b] + rest;
    assert(s[0] == a && s[1] == b);
    assert(s.skip(2) =~= rest);
    assert((seq![a] + rest)[0] == a);
}

// Escapes

/// In a string, a quotation mark, a backslash and a control character is written by its code, and
/// everything else as it is.
pub proof fn law_escaped(c: char, rest: Seq<char>)
    ensures
        escaped(Seq::empty()) == Seq::<char>::empty(),
        c == '"' ==> escaped(seq![c] + rest) == seq!['\\', 'u', '0', '0', '2', '2'] + escaped(rest),
        c == '\\' ==> escaped(seq![c] + rest) == seq!['\\', 'u', '0', '0', '5', 'c'] + escaped(
            rest,
        ),
        (c as u32) < 0x20 ==> escaped(seq![c] + rest) == seq![
            '\\',
            'u',
            '0',
            '0',
            "0123456789abcdef"@[c as int / 16],
            "0123456789abcdef"@[c as int % 16],
        ] + escaped(rest),
        c != '"' && c != '\\' && (c as u32) >= 0x20 ==> escaped(seq![c] + rest) == seq![c]
            + escaped(rest),
{
    let s = seq![c] + rest;
    assert(s[0] == c);
    assert(s.drop_first() =~= rest);
    reveal_strlit("0123456789abcdef");
    if (c as u32) < 0x20 {
        lemma_hex_alphabet(c as int / 16);
        lemma_hex_alphabet(c as int % 16);
    }
    assert(crate::hex::hex_digit(2) == '2' && crate::hex::hex_digit(5) == '5'
        && crate::hex::hex_digit(12) == 'c');
}

/// A string says what stands in it, character by character, but for the escapes: a backslash and a
/// letter that has a meaning are one character.
pub proof fn law_unescaped(c: char, rest: Seq<char>)
    ensures
        unescaped(Seq::empty()) == Seq::<char>::empty(),
        unescaped(seq!['\\']) == seq!['\\'],
        c != '\\' ==> unescaped(seq![c] + rest) == seq![c] + unescaped(rest),
        unescaped(seq!['\\', '"'] + rest) == seq!['"'] + unescaped(rest),
        unescaped(seq!['\\', '\\'] + rest) == seq!['\\'] + unescaped(rest),
        unescaped(seq!['\\', '/'] + rest) == seq!['/'] + unescaped(rest),
        unescaped(seq!['\\', 'b'] + rest) == seq!['\u{8}'] + unescaped(rest),
        unescaped(seq!['\\', 'f'] + rest) == seq!['\u{c}'] + unescaped(rest),
        unescaped(seq!['\\', 'n'] + rest) == seq!['\n'] + unescaped(rest),
        unescaped(seq!['\\', 'r'] + rest) == seq!['\r'] + unescaped(rest),
        unescaped(seq!['\\', 't'] + rest) == seq!['\t'] + unescaped(rest),
{
    assert((seq![c] + rest).drop_first() =~= rest && (seq![c] + rest)[0] == c);
    lemma_two(seq!['\\', '"'], rest);
    lemma_two(seq!['\\', '\\'], rest);
    lemma_two(seq!['\\', '/'], rest);
    lemma_two(seq!['\\', 'b'], rest);
    lemma_two(seq!['\\', 'f'], rest);
    lemma_two(seq!['\\', 'n'], rest);
    lemma_two(seq!['\\', 'r'], rest);
    lemma_two(seq!['\\', 't'], rest);
    let lone = seq!['\\'];
    assert(lone.drop_first() =~= Seq::<char>::empty());
    assert(unescaped(lone) =~= seq!['\\'] + unescaped(lone.drop_first()));
    assert(unescaped(lone) =~= lone);
}

proof fn lemma_two(pair: Seq<char>, rest: Seq<char>)
    requires
        pair.len() == 2,
    ensures
        (pair + rest).skip(2) == rest,
        (pair + rest)[0] == pair[0],
        (pair + rest)[1] == pair[1],
{
    assert((pair + rest).skip(2) =~= rest);
}

/// A backslash with a letter that has no meaning stands for itself.
pub proof fn law_backslash_alone(letter: char, rest: Seq<char>)
    requires
        letter != '"',
        letter != '\\',
        letter != '/',
        letter != 'b',
        letter != 'f',
        letter != 'n',
        letter != 'r',
        letter != 't',
        letter != 'u',
    ensures
        unescaped(seq!['\\', letter] + rest) == seq!['\\', letter] + unescaped(rest),
{
    let s = seq!['\\', letter] + rest;
    assert(s[0] == '\\' && s[1] == letter);
    let t = s.drop_first();
    assert(t =~= seq![letter] + rest);
    law_unescaped(letter, rest);
    assert(unescaped(s) =~= seq!['\\'] + unescaped(t));
    assert(seq!['\\'] + (seq![letter] + unescaped(rest)) =~= seq!['\\', letter] + unescaped(rest));
}

/// Four hexadecimal digits behind a backslash and `u` are the character with that code, unless the
/// code is half of a surrogate pair.
pub proof fn law_code_escape(a: char, b: char, c: char, d: char, rest: Seq<char>)
    requires
        hex_value(a) is Some,
        hex_value(b) is Some,
        hex_value(c) is Some,
        hex_value(d) is Some,
    ensures
        ({
            let code = 4096 * hex_value(a)->0 + 256 * hex_value(b)->0 + 16 * hex_value(c)->0
                + hex_value(d)->0;
            code < 0xD800 || code > 0xDFFF ==> unescaped(
                seq!['\\', 'u', a, b, c, d] + rest,
            ) == seq![code as char] + unescaped(rest)
        }),
{
    let s = seq!['\\', 'u', a, b, c, d] + rest;
    assert(s[0] == '\\' && s[1] == 'u' && s[2] == a && s[3] == b && s[4] == c && s[5] == d);
    assert(s.skip(6) =~= rest);
}

/// Two codes that are a surrogate pair are the one character that the pair stands for.
pub proof fn law_surrogate_pair(
    a: char,
    b: char,
    c: char,
    d: char,
    e: char,
    f: char,
    g: char,
    h: char,
    rest: Seq<char>,
)
    requires
        hex_value(a) is Some,
        hex_value(b) is Some,
        hex_value(c) is Some,
        hex_value(d) is Some,
        hex_value(e) is Some,
        hex_value(f) is Some,
        hex_value(g) is Some,
        hex_value(h) is Some,
    ensures
        ({
            let high = 4096 * hex_value(a)->0 + 256 * hex_value(b)->0 + 16 * hex_value(c)->0
                + hex_value(d)->0;
            let low = 4096 * hex_value(e)->0 + 256 * hex_value(f)->0 + 16 * hex_value(g)->0
                + hex_value(h)->0;
            0xD800 <= high <= 0xDBFF && 0xDC00 <= low <= 0xDFFF ==> unescaped(
                seq!['\\', 'u', a, b, c, d, '\\', 'u', e, f, g, h] + rest,
            ) == seq![(0x10000 + 1024 * (high - 0xD800) + (low - 0xDC00)) as char] + unescaped(
                rest,
            )
        }),
{
    let s = seq!['\\', 'u', a, b, c, d, '\\', 'u', e, f, g, h] + rest;
    assert(s[0] == '\\' && s[1] == 'u' && s[2] == a && s[3] == b && s[4] == c && s[5] == d);
    let t = s.skip(6);
    assert(t[0] == '\\' && t[1] == 'u' && t[2] == e && t[3] == f && t[4] == g && t[5] == h);
    assert(s.skip(12) =~= rest);
}

} // verus!
