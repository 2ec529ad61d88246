//! Signals as A2A messages: a JSON object on one line, in UTF-8.
//!
//! A component of an embedding is written as decimal text and read from it. Turning a double
//! precision number into such text and back is left to the caller.
use crate::chain::SignalChain;
use crate::hex::can_be_split;
use crate::hex::decode_hex;
use crate::hex::decoded;
use crate::hex::encode_hex;
use crate::hex::hex_text;
use crate::hex::splits_in_pairs;
use crate::json::escaped;
use crate::json::find_string_end;
use crate::json::push_escaped;
use crate::json::string_end;
use crate::json::unescape;
use crate::json::unescaped;
use crate::signal::Signal;
use crate::signal::SignalType;
use crate::signal::SignalView;
use crate::text::chars_of;
use crate::text::decimal;
use crate::text::digits_end;
use crate::text::digits_value;
use crate::text::find;
use crate::text::find_char;
use crate::text::find_digits_end;
use crate::text::first_occurrence;
use crate::text::join;
use crate::text::next_position;
use crate::text::parse_digits;
use crate::text::push_decimal;
use crate::text::split;
use crate::text::split_trimmed;
use crate::text::string_between;
use crate::text::trim;
use vstd::prelude::*;
use vstd::string::StrSliceExecFns;
use vstd::string::StringExecFns;
use vstd::utf8::decode_utf8;
use vstd::utf8::encode_utf8;
use vstd::utf8::valid_utf8;

verus! {

/// `std::str::from_utf8` turns bytes into text exactly if they are valid UTF-8; the text is what
/// the bytes encode.
#[verifier::external_body]
fn utf8_text(data: &[u8]) -> (r: Option<&str>)
    ensures
        match r {
            Some(text) => valid_utf8(data@) && text@ == decode_utf8(data@),
            None => !valid_utf8(data@),
        },
{
    std::str::from_utf8(data).ok()
}

// Signal types by name

/// The name of a signal type.
pub open spec fn label(t: SignalType) -> Seq<char> {
    match t {
        SignalType::Tick => "Tick"@,
        SignalType::Murmur => "Murmur"@,
        SignalType::Prediction => "Prediction"@,
        SignalType::Surprise => "Surprise"@,
        SignalType::GcReport => "GcReport"@,
        SignalType::VibeShift => "VibeShift"@,
        SignalType::LoRATrigger => "LoRATrigger"@,
        SignalType::BalanceAlert => "BalanceAlert"@,
        SignalType::CorrelationUpdate => "CorrelationUpdate"@,
        SignalType::EnergyUpdate => "EnergyUpdate"@,
    }
}

/// The signal type of that name, if there is one.
pub open spec fn type_labelled(name: Seq<char>) -> Option<SignalType> {
    if exists|t: SignalType| #[trigger] label(t) == name {
        Some(choose|t: SignalType| #[trigger] label(t) == name)
    } else {
        None
    }
}

/// No two signal types have the same name.
pub proof fn lemma_labels_differ(a: SignalType, b: SignalType)
    requires
        label(a) == label(b),
    ensures
        a == b,
{
    reveal_strlit("Tick");
    reveal_strlit("Murmur");
    reveal_strlit("Prediction");
    reveal_strlit("Surprise");
    reveal_strlit("GcReport");
    reveal_strlit("VibeShift");
    reveal_strlit("LoRATrigger");
    reveal_strlit("BalanceAlert");
    reveal_strlit("CorrelationUpdate");
    reveal_strlit("EnergyUpdate");
    assert("Tick"@.len() == 4);
    assert("Murmur"@.len() == 6);
    assert("Prediction"@.len() == 10);
    assert("Surprise"@.len() == 8 && "Surprise"@[0] == 'S');
    assert("GcReport"@.len() == 8 && "GcReport"@[0] == 'G');
    assert("VibeShift"@.len() == 9);
    assert("LoRATrigger"@.len() == 11);
    assert("BalanceAlert"@.len() == 12 && "BalanceAlert"@[0] == 'B');
    assert("CorrelationUpdate"@.len() == 17);
    assert("EnergyUpdate"@.len() == 12 && "EnergyUpdate"@[0] == 'E');
}

/// The name of a signal type.
fn label_of(t: SignalType) -> (r: &'static str)
    ensures
        r@ == label(t),
{
    match t {
        SignalType::Tick => "Tick",
        SignalType::Murmur => "Murmur",
        SignalType::Prediction => "Prediction",
        SignalType::Surprise => "Surprise",
        SignalType::GcReport => "GcReport",
        SignalType::VibeShift => "VibeShift",
        SignalType::LoRATrigger => "LoRATrigger",
        SignalType::BalanceAlert => "BalanceAlert",
        SignalType::CorrelationUpdate => "CorrelationUpdate",
        SignalType::EnergyUpdate => "EnergyUpdate",
    }
}

/// Tells whether `name` is the name of `t`.
fn has_label(t: SignalType, name: &String) -> (r: bool)
    ensures
        r == (label(t) == name@),
{
    label_of(t).to_owned() == *name
}

/// Finds the signal type of that name.
fn type_of(name: &String) -> (r: Option<SignalType>)
    ensures
        r == type_labelled(name@),
{
    let types: [SignalType; 10] = [
        SignalType::Tick,
        SignalType::Murmur,
        SignalType::Prediction,
        SignalType::Surprise,
        SignalType::GcReport,
        SignalType::VibeShift,
        SignalType::LoRATrigger,
        SignalType::BalanceAlert,
        SignalType::CorrelationUpdate,
        SignalType::EnergyUpdate,
    ];
    let mut i: usize = 0;
    while i < 10
        invariant
            i <= 10,
            types@.len() == 10,
            forall|j: int| 0 <= j < i ==> label(#[trigger] types@[j]) != name@,
        decreases 10 - i,
    {
        if has_label(types[i], name) {
            proof {
                let found = types@[i as int];
                assert(label(found) == name@);
                lemma_labels_differ(type_labelled(name@).unwrap(), found);
            }
            return Some(types[i]);
        }
        i = i + 1;
    }
    assert forall|t: SignalType| #[trigger] label(t) != name@ by {
        assert(label(types@[0]) != name@);
        assert(label(types@[1]) != name@);
        assert(label(types@[2]) != name@);
        assert(label(types@[3]) != name@);
        assert(label(types@[4]) != name@);
        assert(label(types@[5]) != name@);
        assert(label(types@[6]) != name@);
        assert(label(types@[7]) != name@);
        assert(label(types@[8]) != name@);
        assert(label(types@[9]) != name@);
    }
    None
}

// Writing

/// What the texts of a list say.
pub open spec fn texts(list: Seq<String>) -> Seq<Seq<char>> {
    list.map_values(|t: String| t@)
}

/// A member of the object whose value is a number, and the comma behind it.
pub open spec fn number_field(name: Seq<char>, value: Seq<char>) -> Seq<char> {
    "\""@ + name + "\":"@ + value + ","@
}

/// A member of the object whose value is a string, and the comma behind it, with `value` as what
/// stands between the quotation marks.
pub open spec fn string_field(name: Seq<char>, value: Seq<char>) -> Seq<char> {
    "\""@ + name + "\":\""@ + value + "\","@
}

/// The message that says what `signal` says, with `components` as the texts of its embedding.
pub open spec fn frame_text(signal: SignalView, components: Seq<Seq<char>>) -> Seq<char> {
    "{"@ + number_field("id"@, decimal(signal.id as nat)) + string_field(
        "source"@,
        escaped(signal.source),
    ) + string_field("target"@, escaped(signal.target)) + string_field(
        "signal_type"@,
        label(signal.signal_type),
    ) + number_field("priority"@, decimal(signal.priority as nat)) + number_field(
        "timestamp"@,
        decimal(signal.timestamp as nat),
    ) + string_field("payload"@, hex_text(signal.payload)) + "\"embedding\":["@ + join(
        components,
    ) + "]}"@
}

/// Appends a member whose value is a number.
fn push_number_field(out: &mut String, name: &str, value: u64)
    ensures
        final(out)@ == old(out)@ + number_field(name@, decimal(value as nat)),
{
    out.append("\"");
    out.append(name);
    out.append("\":");
    push_decimal(out, value);
    out.append(",");
    assert(out@ =~= old(out)@ + number_field(name@, decimal(value as nat)));
}

/// Appends a member whose value is a string.
fn push_string_field(out: &mut String, name: &str, value: &str)
    ensures
        final(out)@ == old(out)@ + string_field(name@, value@),
{
    out.append("\"");
    out.append(name);
    out.append("\":\"");
    out.append(value);
    out.append("\",");
    assert(out@ =~= old(out)@ + string_field(name@, value@));
}

/// Appends the texts of `list`, with a comma between each two.
fn push_joined(out: &mut String, list: &Vec<String>)
    ensures
        final(out)@ == old(out)@ + join(texts(list@)),
{
    let ghost all = texts(list@);
    let mut i: usize = 0;
    proof {
        reveal_strlit(",");
        assert(all.take(0) =~= Seq::<Seq<char>>::empty());
        assert(out@ + join(all.take(0)) =~= out@);
    }
    while i < list.len()
        invariant
            i <= list@.len(),
            all == texts(list@),
            "," @ =~= seq![','],
            out@ == old(out)@ + join(all.take(i as int)),
        decreases list@.len() - i,
    {
        proof {
            assert(all.take(i + 1).drop_last() =~= all.take(i as int));
            assert(all.take(i + 1).last() == list@[i as int]@);
        }
        if i > 0 {
            out.append(",");
        }
        out.append(list[i].as_str());
        i = i + 1;
        assert(out@ =~= old(out)@ + join(all.take(i as int)));
    }
    assert(all.take(i as int) =~= all);
}

/// Writes the message that says what `signal` says, with `components` as the texts of its
/// embedding.
pub fn write_frame(signal: &Signal, components: &Vec<String>) -> (r: Vec<u8>)
    ensures
        r@ == encode_utf8(frame_text(signal@, texts(components@))),
{
    let mut out: String = String::new();
    out.append("{");
    push_number_field(&mut out, "id", signal.id);
    let mut source: String = String::new();
    push_escaped(&mut source, signal.source.as_str());
    push_string_field(&mut out, "source", source.as_str());
    let mut target: String = String::new();
    push_escaped(&mut target, signal.target.as_str());
    push_string_field(&mut out, "target", target.as_str());
    push_string_field(&mut out, "signal_type", label_of(signal.signal_type));
    push_number_field(&mut out, "priority", signal.priority as u64);
    push_number_field(&mut out, "timestamp", signal.timestamp);
    let payload: String = encode_hex(&signal.payload);
    push_string_field(&mut out, "payload", payload.as_str());
    out.append("\"embedding\":[");
    push_joined(&mut out, components);
    out.append("]}");
    assert(source@ =~= escaped(signal@.source));
    assert(target@ =~= escaped(signal@.target));
    assert(out@ =~= frame_text(signal@, texts(components@)));
    out.as_str().as_bytes_vec()
}

// Reading

/// The string behind the first `key`, up to the next quotation mark, or why there is none.
pub open spec fn string_after(s: Seq<char>, key: Seq<char>) -> Result<Seq<char>, Seq<char>> {
    match first_occurrence(s, key) {
        None => Err("key not found"@),
        Some(p) => {
            let start = p + key.len();
            let end = next_position(s, '"', start);
            if end < s.len() {
                Ok(s.subrange(start, end))
            } else {
                Err("unterminated string"@)
            }
        },
    }
}

/// The name that the string behind the first `key` says, or why there is none. The string ends at
/// the next quotation mark that is not escaped, and its escapes are read as what they stand for.
pub open spec fn name_after(s: Seq<char>, key: Seq<char>) -> Result<Seq<char>, Seq<char>> {
    match first_occurrence(s, key) {
        None => Err("key not found"@),
        Some(p) => {
            let start = p + key.len();
            let end = string_end(s, start);
            if end < s.len() {
                Ok(unescaped(s.subrange(start, end)))
            } else {
                Err("unterminated string"@)
            }
        },
    }
}

/// The number whose digits stand behind the first `key`, or why there is none.
pub open spec fn number_after(s: Seq<char>, key: Seq<char>) -> Result<u64, Seq<char>> {
    match first_occurrence(s, key) {
        None => Err("key not found"@),
        Some(p) => {
            let start = p + key.len();
            let digits = s.subrange(start, digits_end(s, start));
            if digits.len() == 0 || digits_value(digits) > u64::MAX {
                Err("parse error"@)
            } else {
                Ok(digits_value(digits) as u64)
            }
        },
    }
}

/// The texts of the components of the embedding, or why there are none.
pub open spec fn components_of(s: Seq<char>) -> Result<Seq<Seq<char>>, Seq<char>> {
    let key = "\"embedding\":["@;
    match first_occurrence(s, key) {
        None => Err("embedding key not found"@),
        Some(p) => {
            let start = p + key.len();
            let end = next_position(s, ']', start);
            if end >= s.len() {
                Err("embedding array not closed"@)
            } else if start == end {
                Ok(Seq::empty())
            } else {
                Ok(split(s.subrange(start, end)).map_values(|t: Seq<char>| trim(t)))
            }
        },
    }
}

/// Reads the string behind `key`.
pub fn extract_string(json: &Vec<char>, key: &str) -> (r: Result<String, &'static str>)
    ensures
        match r {
            Ok(text) => string_after(json@, key@) == Ok::<Seq<char>, Seq<char>>(text@),
            Err(e) => string_after(json@, key@) == Err::<Seq<char>, Seq<char>>(e@),
        },
{
    let key_chars: Vec<char> = chars_of(key);
    match find(json, &key_chars) {
        None => Err("key not found"),
        Some(p) => {
            let start: usize = p + key_chars.len();
            let end: usize = find_char(json, '"', start);
            if end < json.len() {
                Ok(string_between(json, start, end))
            } else {
                Err("unterminated string")
            }
        },
    }
}

/// Reads the name that the string behind `key` says.
pub fn extract_name(json: &Vec<char>, key: &str) -> (r: Result<String, &'static str>)
    ensures
        match r {
            Ok(text) => name_after(json@, key@) == Ok::<Seq<char>, Seq<char>>(text@),
            Err(e) => name_after(json@, key@) == Err::<Seq<char>, Seq<char>>(e@),
        },
{
    let key_chars: Vec<char> = chars_of(key);
    match find(json, &key_chars) {
        None => Err("key not found"),
        Some(p) => {
            let start: usize = p + key_chars.len();
            let end: usize = find_string_end(json, start);
            if end < json.len() {
                let body: String = string_between(json, start, end);
                Ok(unescape(&body))
            } else {
                Err("unterminated string")
            }
        },
    }
}

/// Reads the number behind `key`.
pub fn extract_u64(json: &Vec<char>, key: &str) -> (r: Result<u64, &'static str>)
    ensures
        match r {
            Ok(n) => number_after(json@, key@) == Ok::<u64, Seq<char>>(n),
            Err(e) => number_after(json@, key@) == Err::<u64, Seq<char>>(e@),
        },
{
    let key_chars: Vec<char> = chars_of(key);
    match find(json, &key_chars) {
        None => Err("key not found"),
        Some(p) => {
            let start: usize = p + key_chars.len();
            let end: usize = find_digits_end(json, start);
            match parse_digits(json, start, end) {
                Some(n) => Ok(n),
                None => Err("parse error"),
            }
        },
    }
}

/// Reads the texts of the components of the embedding.
pub fn extract_embedding(json: &Vec<char>) -> (r: Result<Vec<String>, &'static str>)
    ensures
        match r {
            Ok(list) => components_of(json@) == Ok::<Seq<Seq<char>>, Seq<char>>(texts(list@)),
            Err(e) => components_of(json@) == Err::<Seq<Seq<char>>, Seq<char>>(e@),
        },
{
    let key_chars: Vec<char> = chars_of("\"embedding\":[");
    match find(json, &key_chars) {
        None => Err("embedding key not found"),
        Some(p) => {
            let start: usize = p + key_chars.len();
            let end: usize = find_char(json, ']', start);
            if end >= json.len() {
                Err("embedding array not closed")
            } else if start == end {
                let list: Vec<String> = Vec::new();
                assert(texts(list@) =~= Seq::<Seq<char>>::empty());
                Ok(list)
            } else {
                Ok(split_trimmed(json, start, end))
            }
        },
    }
}

/// What a message says ahead of its embedding, as far as it can be read without judging it.
#[verifier::ext_equal]
pub struct HeadView {
    pub id: u64,
    pub source: Seq<char>,
    pub target: Seq<char>,
    pub label: Seq<char>,
    pub priority: u8,
    pub timestamp: u64,
    pub payload: Seq<char>,
}

/// What a message says ahead of its embedding.
struct Head {
    id: u64,
    source: String,
    target: String,
    label: String,
    priority: u8,
    timestamp: u64,
    payload: String,
}

impl View for Head {
    type V = HeadView;

    closed spec fn view(&self) -> HeadView {
        HeadView {
            id: self.id,
            source: self.source@,
            target: self.target@,
            label: self.label@,
            priority: self.priority,
            timestamp: self.timestamp,
            payload: self.payload@,
        }
    }
}

/// What a message says ahead of its embedding, or the first thing that cannot be read. The names of
/// the rooms are read with their escapes, the label and the payload as they stand: neither is ever
/// written with an escape. A priority counts modulo 256.
pub open spec fn head_of(s: Seq<char>) -> Result<HeadView, Seq<char>> {
    match number_after(s, "\"id\":"@) {
        Err(e) => Err(e),
        Ok(id) => match name_after(s, "\"source\":\""@) {
            Err(e) => Err(e),
            Ok(source) => match name_after(s, "\"target\":\""@) {
                Err(e) => Err(e),
                Ok(target) => match string_after(s, "\"signal_type\":\""@) {
                    Err(e) => Err(e),
                    Ok(label) => match number_after(s, "\"priority\":"@) {
                        Err(e) => Err(e),
                        Ok(priority) => match number_after(s, "\"timestamp\":"@) {
                            Err(e) => Err(e),
                            Ok(timestamp) => match string_after(s, "\"payload\":\""@) {
                                Err(e) => Err(e),
                                Ok(payload) => Ok(
                                    HeadView {
                                        id,
                                        source,
                                        target,
                                        label,
                                        priority: (priority % 256) as u8,
                                        timestamp,
                                        payload,
                                    },
                                ),
                            },
                        },
                    },
                },
            },
        },
    }
}

/// Reads what a message says ahead of its embedding.
fn read_head(json: &Vec<char>) -> (r: Result<Head, &'static str>)
    ensures
        match r {
            Ok(head) => head_of(json@) == Ok::<HeadView, Seq<char>>(head@),
            Err(e) => head_of(json@) == Err::<HeadView, Seq<char>>(e@),
        },
{
    let id: u64 = match extract_u64(json, "\"id\":") {
        Ok(n) => n,
        Err(e) => {
            return Err(e);
        },
    };
    let source: String = match extract_name(json, "\"source\":\"") {
        Ok(text) => text,
        Err(e) => {
            return Err(e);
        },
    };
    let target: String = match extract_name(json, "\"target\":\"") {
        Ok(text) => text,
        Err(e) => {
            return Err(e);
        },
    };
    let label: String = match extract_string(json, "\"signal_type\":\"") {
        Ok(text) => text,
        Err(e) => {
            return Err(e);
        },
    };
    let priority: u64 = match extract_u64(json, "\"priority\":") {
        Ok(n) => n,
        Err(e) => {
            return Err(e);
        },
    };
    let timestamp: u64 = match extract_u64(json, "\"timestamp\":") {
        Ok(n) => n,
        Err(e) => {
            return Err(e);
        },
    };
    let payload: String = match extract_string(json, "\"payload\":\"") {
        Ok(text) => text,
        Err(e) => {
            return Err(e);
        },
    };
    Ok(Head { id, source, target, label, priority: (priority % 256) as u8, timestamp, payload })
}

/// A message whose embedding has not been turned into numbers yet.
#[derive(Debug)]
pub struct Frame {
    /// The signal, without its embedding.
    pub signal: Signal,
    /// The texts of the components of the embedding.
    pub components: Vec<String>,
}

/// What a [`Frame`] says.
#[verifier::ext_equal]
pub struct FrameView {
    pub signal: SignalView,
    pub components: Seq<Seq<char>>,
}

impl View for Frame {
    type V = FrameView;

    open spec fn view(&self) -> FrameView {
        FrameView { signal: self.signal@, components: texts(self.components@) }
    }
}

/// Where the payload of a message is to be decoded, it can be cut into pairs of bytes.
pub open spec fn is_readable(data: Seq<u8>) -> bool {
    valid_utf8(data) ==> match head_of(decode_utf8(data)) {
        Ok(head) => splits_in_pairs(head.payload),
        Err(_) => true,
    }
}

/// What a message says, or the first thing that is wrong with it.
pub open spec fn frame_of(data: Seq<u8>) -> Result<FrameView, Seq<char>> {
    if !valid_utf8(data) {
        Err("invalid utf8"@)
    } else {
        match head_of(decode_utf8(data)) {
            Err(e) => Err(e),
            Ok(head) => match decoded(head.payload) {
                None => Err("invalid hex payload"@),
                Some(payload) => match type_labelled(head.label) {
                    None => Err("unknown signal type"@),
                    Some(signal_type) => match components_of(decode_utf8(data)) {
                        Err(e) => Err(e),
                        Ok(components) => Ok(
                            FrameView {
                                signal: SignalView {
                                    source: head.source,
                                    target: head.target,
                                    signal_type,
                                    payload,
                                    embedding: Seq::empty(),
                                    priority: head.priority,
                                    timestamp: head.timestamp,
                                    id: head.id,
                                },
                                components,
                            },
                        ),
                    },
                },
            },
        }
    }
}

/// Tells whether the payload of a message can be cut into pairs of bytes, as far as it has to be
/// decoded.
pub fn can_read(data: &[u8]) -> (r: bool)
    ensures
        r == is_readable(data@),
{
    match utf8_text(data) {
        None => true,
        Some(text) => {
            let json: Vec<char> = chars_of(text);
            match read_head(&json) {
                Ok(head) => can_be_split(head.payload.as_str()),
                Err(_) => true,
            }
        },
    }
}

/// Reads a message, up to the numbers of its embedding.
pub fn read_frame(data: &[u8]) -> (r: Result<Frame, &'static str>)
    requires
        is_readable(data@),
    ensures
        match r {
            Ok(frame) => frame_of(data@) == Ok::<FrameView, Seq<char>>(frame@),
            Err(e) => frame_of(data@) == Err::<FrameView, Seq<char>>(e@),
        },
{
    let json: Vec<char> = match utf8_text(data) {
        Some(text) => chars_of(text),
        None => {
            return Err("invalid utf8");
        },
    };
    let head: Head = match read_head(&json) {
        Ok(head) => head,
        Err(e) => {
            return Err(e);
        },
    };
    let payload: Vec<u8> = match decode_hex(head.payload.as_str()) {
        Ok(bytes) => bytes,
        Err(_) => {
            return Err("invalid hex payload");
        },
    };
    let signal_type: SignalType = match type_of(&head.label) {
        Some(t) => t,
        None => {
            return Err("unknown signal type");
        },
    };
    let components: Vec<String> = match extract_embedding(&json) {
        Ok(list) => list,
        Err(e) => {
            return Err(e);
        },
    };
    let embedding: Vec<u64> = Vec::new();
    let frame = Frame {
        signal: Signal {
            source: head.source,
            target: head.target,
            signal_type,
            payload,
            embedding,
            priority: head.priority,
            timestamp: head.timestamp,
            id: head.id,
        },
        components,
    };
    assert(embedding@ =~= Seq::<u64>::empty());
    Ok(frame)
}

/// The signal of a frame, with `values` as the numbers that its components were read as; one that
/// was read as no number spoils it.
pub open spec fn completed(frame: FrameView, values: Seq<Option<u64>>) -> Result<
    SignalView,
    Seq<char>,
> {
    if values.contains(None) {
        Err("bad float"@)
    } else {
        Ok(
            SignalView {
                embedding: values.map_values(|v: Option<u64>| v.unwrap()),
                ..frame.signal
            },
        )
    }
}

impl Frame {
    /// The signal, with the numbers that its components were read as.
    pub fn complete(self, values: &Vec<Option<u64>>) -> (r: Result<Signal, &'static str>)
        ensures
            is_result(r, completed(self@, values@)),
    {
        let mut embedding: Vec<u64> = Vec::new();
        let mut i: usize = 0;
        while i < values.len()
            invariant
                i <= values@.len(),
                embedding@.len() == i,
                forall|j: int|
                    0 <= j < i ==> #[trigger] values@[j] == Some(embedding@[j]),
            decreases values@.len() - i,
        {
            match values[i] {
                None => {
                    assert(values@[i as int] is None);
                    assert(values@.contains(None));
                    return Err("bad float");
                },
                Some(v) => {
                    embedding.push(v);
                },
            }
            i = i + 1;
        }
        let mut signal: Signal = self.signal;
        signal.embedding = embedding;
        proof {
            assert(!values@.contains(None)) by {
                if values@.contains(None) {
                    let j = choose|j: int| 0 <= j < values@.len() && values@[j] is None;
                    assert(values@[j] == Some(embedding@[j]));
                }
            }
            assert(embedding@ =~= values@.map_values(|v: Option<u64>| v.unwrap()));
        }
        Ok(signal)
    }
}

// Messages and signals

/// `show` can write the number `value` as `text`.
pub open spec fn is_shown<W: Fn(u64) -> String>(show: W, value: u64, text: Seq<char>) -> bool {
    exists|t: String| t@ == text && #[trigger] call_ensures(show, (value,), t)
}

/// `show` can write each of the numbers `values` as the text at the same place in `list`.
pub open spec fn are_shown<W: Fn(u64) -> String>(
    show: W,
    values: Seq<u64>,
    list: Seq<Seq<char>>,
) -> bool {
    list.len() == values.len() && forall|i: int|
        0 <= i < values.len() ==> is_shown(show, #[trigger] values[i], list[i])
}

/// `parse` can read `text` as `value`.
pub open spec fn is_parsed<P: Fn(&str) -> Option<u64>>(
    parse: P,
    text: Seq<char>,
    value: Option<u64>,
) -> bool {
    exists|t: &str| t@ == text && #[trigger] call_ensures(parse, (t,), value)
}

/// `parse` can read the texts of `list`, one after another up to the first that it does not take
/// for a number, as `values`.
pub open spec fn are_parsed<P: Fn(&str) -> Option<u64>>(
    parse: P,
    list: Seq<Seq<char>>,
    values: Seq<Option<u64>>,
) -> bool {
    &&& values.len() <= list.len()
    &&& forall|i: int| 0 <= i < values.len() ==> is_parsed(parse, list[i], #[trigger] values[i])
    &&& forall|i: int| 0 <= i < values.len() - 1 ==> (#[trigger] values[i]) is Some
    &&& values.len() < list.len() ==> values.len() > 0 && values.last() is None
}

/// `r` is the result `expected`: a signal that says the same, or an error in the same words.
pub open spec fn is_result(
    r: Result<Signal, &'static str>,
    expected: Result<SignalView, Seq<char>>,
) -> bool {
    match (r, expected) {
        (Ok(signal), Ok(view)) => signal@ == view,
        (Err(e), Err(words)) => e@ == words,
        _ => false,
    }
}

/// `data` is the message that says what `signal` says, with the components of its embedding as
/// `show` can write them.
pub open spec fn is_written<W: Fn(u64) -> String>(
    show: W,
    signal: SignalView,
    data: Seq<u8>,
) -> bool {
    exists|list: Seq<Seq<char>>|
        are_shown(show, signal.embedding, list) && data == encode_utf8(
            #[trigger] frame_text(signal, list),
        )
}

/// `r` is what the message `data` says, with the components of its embedding as `parse` can read
/// them, or the first thing that is wrong with it.
pub open spec fn is_read<P: Fn(&str) -> Option<u64>>(
    parse: P,
    data: Seq<u8>,
    r: Result<Signal, &'static str>,
) -> bool {
    match frame_of(data) {
        Err(e) => is_result(r, Err(e)),
        Ok(frame) => exists|values: Seq<Option<u64>>|
            are_parsed(parse, frame.components, values) && is_result(
                r,
                #[trigger] completed(frame, values),
            ),
    }
}

impl SignalChain {
    /// Convert a Signal into an A2A-compatible JSON byte payload. The components of the embedding
    /// are written as `show` says.
    pub fn to_a2a<W: Fn(u64) -> String>(signal: &Signal, show: W) -> (r: Vec<u8>)
        requires
            forall|value: u64| #[trigger] call_requires(show, (value,)),
        ensures
            is_written(show, signal@, r@),
    {
        let mut list: Vec<String> = Vec::new();
        let mut i: usize = 0;
        while i < signal.embedding.len()
            invariant
                forall|value: u64| #[trigger] call_requires(show, (value,)),
                i <= signal.embedding@.len(),
                list@.len() == i,
                forall|j: int|
                    0 <= j < i ==> is_shown(
                        show,
                        #[trigger] signal.embedding@[j],
                        list@[j]@,
                    ),
            decreases signal.embedding@.len() - i,
        {
            let text: String = show(signal.embedding[i]);
            assert(is_shown(show, signal.embedding@[i as int], text@));
            list.push(text);
            i = i + 1;
        }
        assert(are_shown(show, signal@.embedding, texts(list@)));
        write_frame(signal, &list)
    }

    /// Parse an A2A JSON byte payload back into a Signal. The components of the embedding are read
    /// as `parse` says.
    pub fn from_a2a<P: Fn(&str) -> Option<u64>>(data: &[u8], parse: P) -> (r: Result<
        Signal,
        &'static str,
    >)
        requires
            is_readable(data@),
            forall|text: &str| #[trigger] call_requires(parse, (text,)),
        ensures
            is_read(parse, data@, r),
    {
        let frame: Frame = match read_frame(data) {
            Ok(frame) => frame,
            Err(e) => {
                return Err(e);
            },
        };
        let mut values: Vec<Option<u64>> = Vec::new();
        let mut i: usize = 0;
        let mut spoilt: bool = false;
        while i < frame.components.len() && !spoilt
            invariant
                forall|text: &str| #[trigger] call_requires(parse, (text,)),
                i <= frame.components@.len(),
                values@.len() == i,
                forall|j: int|
                    0 <= j < i ==> is_parsed(
                        parse,
                        frame.components@[j]@,
                        #[trigger] values@[j],
                    ),
                forall|j: int| 0 <= j < i - 1 ==> (#[trigger] values@[j]) is Some,
                spoilt == (i > 0 && values@[i - 1] is None),
            decreases frame.components@.len() - i,
        {
            let text: &str = frame.components[i].as_str();
            let value: Option<u64> = parse(text);
            assert(is_parsed(parse, frame.components@[i as int]@, value));
            spoilt = value.is_none();
            values.push(value);
            i = i + 1;
        }
        assert(are_parsed(parse, frame@.components, values@));
        frame.complete(&values)
    }
}

} // verus!
