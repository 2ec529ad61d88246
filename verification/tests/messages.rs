use a2a_signal_chain::a2a::can_read;
use a2a_signal_chain::a2a::extract_embedding;
use a2a_signal_chain::a2a::extract_name;
use a2a_signal_chain::a2a::extract_string;
use a2a_signal_chain::a2a::extract_u64;
use a2a_signal_chain::a2a::read_frame;
use a2a_signal_chain::a2a::write_frame;
use a2a_signal_chain::hex::can_be_split;
use a2a_signal_chain::hex::decode_hex;
use a2a_signal_chain::hex::encode_hex;
use a2a_signal_chain::hex::InvalidHex;
use a2a_signal_chain::json::push_escaped;
use a2a_signal_chain::json::unescape;
use a2a_signal_chain::Signal;
use a2a_signal_chain::SignalChain;
use a2a_signal_chain::SignalType;

fn show(value: u64) -> String {
    format!("{}", f64::from_bits(value))
}

fn parse(text: &str) -> Option<u64> {
    text.parse::<f64>().ok().map(|v| v.to_bits())
}

fn chars(text: &str) -> Vec<char> {
    text.chars().collect()
}

fn read(text: &str) -> Result<Signal, &'static str> {
    assert!(can_read(text.as_bytes()));
    SignalChain::from_a2a(text.as_bytes(), parse)
}

#[test]
fn message_text() {
    let signal = Signal::stamped("room_a", "räum", SignalType::Prediction, 1700000000123, 42)
        .with_payload(vec![0xDE, 0xAD, 0x00, 0x0F])
        .with_embedding(vec![0.1f64.to_bits(), (-2.5f64).to_bits(), 3.0f64.to_bits()])
        .with_priority(7);
    let expected = "{\"id\":42,\"source\":\"room_a\",\"target\":\"räum\",\
        \"signal_type\":\"Prediction\",\"priority\":7,\"timestamp\":1700000000123,\
        \"payload\":\"dead000f\",\"embedding\":[0.1,-2.5,3]}";
    assert_eq!(SignalChain::to_a2a(&signal, show), expected.as_bytes());
}

#[test]
fn message_text_of_a_blank_signal() {
    let signal = Signal::stamped("", "", SignalType::Tick, 0, 0);
    let expected = "{\"id\":0,\"source\":\"\",\"target\":\"\",\"signal_type\":\"Tick\",\
        \"priority\":5,\"timestamp\":0,\"payload\":\"\",\"embedding\":[]}";
    assert_eq!(SignalChain::to_a2a(&signal, show), expected.as_bytes());
    assert_eq!(write_frame(&signal, &vec![]), expected.as_bytes());
}

#[test]
fn every_signal_type_comes_back() {
    for t in [
        SignalType::Tick,
        SignalType::Murmur,
        SignalType::Prediction,
        SignalType::Surprise,
        SignalType::GcReport,
        SignalType::VibeShift,
        SignalType::LoRATrigger,
        SignalType::BalanceAlert,
        SignalType::CorrelationUpdate,
        SignalType::EnergyUpdate,
    ] {
        let signal = Signal::stamped("s", "t", t, u64::MAX, u64::MAX).with_priority(255);
        let restored = SignalChain::from_a2a(&SignalChain::to_a2a(&signal, show), parse).unwrap();
        assert_eq!(restored.signal_type, t);
        assert_eq!((restored.id, restored.timestamp), (u64::MAX, u64::MAX));
        assert_eq!(restored.priority, 255);
        assert!(restored.payload.is_empty() && restored.embedding.is_empty());
    }
}

#[test]
fn names_that_look_like_members_come_back() {
    // Nothing in a name is taken for a member.
    let signal = Signal::stamped("id:7,source:", "],[ \\ {}", SignalType::Murmur, 1, 2)
        .with_payload(vec![255])
        .with_embedding(vec![f64::INFINITY.to_bits(), (-0.0f64).to_bits()]);
    let restored = SignalChain::from_a2a(&SignalChain::to_a2a(&signal, show), parse).unwrap();
    assert_eq!(restored.source, "id:7,source:");
    assert_eq!(restored.target, "],[ \\ {}");
    assert_eq!(restored.payload, vec![255]);
    assert_eq!(restored.embedding, vec![f64::INFINITY.to_bits(), (-0.0f64).to_bits()]);
}

#[test]
fn quotation_mark_is_escaped() {
    let signal = Signal::stamped("a\"b", "t", SignalType::Tick, 1, 2);
    let data = SignalChain::to_a2a(&signal, show);
    let expected = "{\"id\":2,\"source\":\"a\\u0022b\",\"target\":\"t\",\"signal_type\":\"Tick\",\
        \"priority\":5,\"timestamp\":1,\"payload\":\"\",\"embedding\":[]}";
    assert_eq!(String::from_utf8(data.clone()).unwrap(), expected);
    assert!(can_read(&data));
    let restored = SignalChain::from_a2a(&data, parse).unwrap();
    assert_eq!(restored.source, "a\"b");
    assert_eq!(restored.target, "t");
}

#[test]
fn any_name_comes_back() {
    let names = [
        "\"",
        "\\",
        "\\\\u0022",
        "\\u0022",
        "\",\"target\":\"x",
        "\n\t\r\0\u{1f}\u{7f}",
        "{\"id\":9}",
        "\u{e9}\u{1f600} \u{ffff}",
        "a\\",
    ];
    for source in names {
        for target in names {
            let signal = Signal::stamped(source, target, SignalType::VibeShift, 3, 4)
                .with_payload(vec![7])
                .with_embedding(vec![0.5f64.to_bits()]);
            let data = SignalChain::to_a2a(&signal, show);
            assert!(can_read(&data));
            let restored = SignalChain::from_a2a(&data, parse).unwrap();
            assert_eq!((restored.source.as_str(), restored.target.as_str()), (source, target));
            assert_eq!(restored.signal_type, SignalType::VibeShift);
            assert_eq!((restored.timestamp, restored.id, restored.priority), (3, 4, 5));
            assert_eq!(restored.payload, vec![7]);
            assert_eq!(restored.embedding, vec![0.5f64.to_bits()]);
        }
    }
}

#[test]
fn names_are_written_as_strings() {
    let mut out = String::from("x");
    push_escaped(&mut out, "a\"\\\u{1f}\n é\u{7f}");
    assert_eq!(out, "xa\\u0022\\u005c\\u001f\\u000a é\u{7f}");
}

#[test]
fn strings_are_read_with_their_escapes() {
    for (text, expected) in [
        ("", ""),
        ("plain", "plain"),
        ("\\u0041\\u00e9\\u20AC", "Aé€"),
        ("\\\"\\\\\\/\\b\\f\\n\\r\\t", "\"\\/\u{8}\u{c}\n\r\t"),
        // An escaped backslash uses up both its characters.
        ("\\\\u0041", "\\u0041"),
        ("\\\\\\u0041", "\\A"),
        ("\\ud83d\\ude00!", "\u{1f600}!"),
        ("\\uD800\\uDC00\\uDBFF\\uDFFF", "\u{10000}\u{10ffff}"),
        ("\\uffff", "\u{ffff}"),
        // What is no escape is left as it is, and so is half a surrogate pair.
        ("\\u004", "\\u004"),
        ("\\u00g1", "\\u00g1"),
        ("\\x\\", "\\x\\"),
        ("\\ud800", "\\ud800"),
        ("\\ud800\\u0041", "\\ud800A"),
        ("\\ude00\\ud83d", "\\ude00\\ud83d"),
    ] {
        assert_eq!(unescape(&text.to_string()), expected, "{text}");
    }
}

#[test]
fn names_are_read_as_strings() {
    let json = chars("\"source\":\"a\\\"b\\\\\",\"target\":\"\\\\u0041\\n\",\"open\":\"x\\\"");
    assert_eq!(extract_name(&json, "\"source\":\""), Ok("a\"b\\".to_string()));
    assert_eq!(extract_name(&json, "\"target\":\""), Ok("\\u0041\n".to_string()));
    assert_eq!(extract_name(&json, "\"open\":\""), Err("unterminated string"));
    assert_eq!(extract_name(&json, "\"none\":\""), Err("key not found"));
    let signal = read(
        "{\"id\":1,\"source\":\"say \\\"hi\\\"\",\"target\":\"\\ud83d\\ude00\",\
        \"signal_type\":\"Tick\",\"priority\":1,\"timestamp\":1,\"payload\":\"00\",\
        \"embedding\":[]}",
    )
    .unwrap();
    assert_eq!((signal.source.as_str(), signal.target.as_str()), ("say \"hi\"", "\u{1f600}"));
}

#[test]
fn frame_keeps_the_texts_of_the_embedding() {
    let signal = Signal::stamped("a", "b", SignalType::Surprise, 3, 4);
    let data = write_frame(&signal, &vec!["1e3".to_string(), "x".to_string()]);
    let frame = read_frame(&data).unwrap();
    assert_eq!(frame.components, vec!["1e3", "x"]);
    assert_eq!((frame.signal.source.as_str(), frame.signal.id), ("a", 4));
    assert_eq!(SignalChain::from_a2a(&data, parse).err(), Some("bad float"));
    assert_eq!(read_frame(&data).unwrap().complete(&vec![Some(1), None]).err(), Some("bad float"));
    let signal = frame.complete(&vec![Some(1), Some(2)]).unwrap();
    assert_eq!(signal.embedding, vec![1, 2]);
}

#[test]
fn members_may_stand_in_any_order() {
    let text = "\"embedding\":[ 1 ,\t2.5 ] \"payload\":\"00fF\" \"timestamp\":3x \"priority\":260, \
        \"signal_type\":\"Tick\" \"target\":\"t\" \"source\":\"s\" \"id\":007";
    let signal = read(text).unwrap();
    assert_eq!((signal.id, signal.timestamp), (7, 3));
    // A priority counts modulo 256.
    assert_eq!(signal.priority, 4);
    assert_eq!(signal.payload, vec![0, 255]);
    assert_eq!(signal.embedding, vec![1.0f64.to_bits(), 2.5f64.to_bits()]);
    assert_eq!((signal.source.as_str(), signal.target.as_str()), ("s", "t"));
}

#[test]
fn what_is_wrong_with_a_message() {
    let head = "\"id\":1,\"source\":\"s\",\"target\":\"t\",\"signal_type\":\"Tick\",\
        \"priority\":1,\"timestamp\":1,";
    let whole = format!("{head}\"payload\":\"00\",\"embedding\":[]");
    assert!(read(&whole).is_ok());
    assert_eq!(SignalChain::from_a2a(&[0xFF, 0xFE], parse).err(), Some("invalid utf8"));
    assert!(can_read(&[0xFF, 0xFE]));
    assert_eq!(read("").err(), Some("key not found"));
    for name in ["id", "source", "target", "signal_type", "priority", "timestamp", "payload"] {
        let text = whole.replace(&format!("\"{name}\":"), "");
        assert_eq!(read(&text).err(), Some("key not found"), "{name}");
    }
    assert_eq!(read(&whole.replace("\"id\":1", "\"id\":-1")).err(), Some("parse error"));
    let too_large = whole.replace("\"id\":1", "\"id\":18446744073709551616");
    assert_eq!(read(&too_large).err(), Some("parse error"));
    assert_eq!(read(&format!("{head}\"payload\":\"00")).err(), Some("unterminated string"));
    assert_eq!(read(&whole.replace("\"00\"", "\"0g\"")).err(), Some("invalid hex payload"));
    assert_eq!(read(&whole.replace("Tick", "Tock")).err(), Some("unknown signal type"));
    assert_eq!(read(&whole.replace("embedding", "other")).err(), Some("embedding key not found"));
    assert_eq!(read(&whole.replace("[]", "[")).err(), Some("embedding array not closed"));
    assert_eq!(read(&whole.replace("[]", "[1,]")).err(), Some("bad float"));
    assert_eq!(read(&whole.replace("[]", "[ ]")).err(), Some("bad float"));
}

#[test]
fn first_fault_is_reported() {
    // The payload is judged before the type, the type before the embedding.
    let text = "\"id\":1,\"source\":\"s\",\"target\":\"t\",\"signal_type\":\"Tock\",\
        \"priority\":1,\"timestamp\":1,\"payload\":\"zz\"";
    assert_eq!(read(text).err(), Some("invalid hex payload"));
    assert_eq!(read(&text.replace("zz", "")).err(), Some("unknown signal type"));
}

#[test]
fn payload_that_cannot_be_cut() {
    let text = "\"id\":1,\"source\":\"s\",\"target\":\"t\",\"signal_type\":\"Tick\",\
        \"priority\":1,\"timestamp\":1,\"payload\":\"abc\",\"embedding\":[]";
    assert!(!can_read(text.as_bytes()));
    assert!(can_read(text.replace("abc", "abcd").as_bytes()));
    // A fault ahead of the payload is found first.
    assert!(can_read(text.replace("\"id\"", "\"no\"").as_bytes()));
}

#[test]
fn hexadecimal_text() {
    assert_eq!(encode_hex(&vec![]), "");
    assert_eq!(encode_hex(&vec![0, 9, 10, 15, 16, 171, 255]), "00090a0f10abff");
    let all: Vec<u8> = (0..=255).collect();
    assert_eq!(decode_hex(&encode_hex(&all)), Ok(all));
    assert_eq!(decode_hex("DEadBE"), Ok(vec![0xDE, 0xAD, 0xBE]));
    // A sign may stand in the place of the first digit.
    assert_eq!(decode_hex("+f"), Ok(vec![15]));
    assert_eq!(decode_hex("-f"), Err(InvalidHex));
    assert_eq!(decode_hex("f+"), Err(InvalidHex));
    assert_eq!(decode_hex("0g"), Err(InvalidHex));
    assert_eq!(decode_hex("é0"), Err(InvalidHex));
}

#[test]
fn hexadecimal_text_that_cannot_be_cut() {
    assert!(can_be_split(""));
    assert!(can_be_split("00"));
    assert!(!can_be_split("0"));
    assert!(!can_be_split("000"));
    // What comes behind the first pair that stands for no byte does not matter.
    assert!(can_be_split("zz0"));
    assert!(can_be_split("é"));
    assert!(!can_be_split("0é"));
    assert!(!can_be_split("€"));
}

#[test]
fn extracting_from_text() {
    let json = chars("{\"a\":12x,\"b\":\"text\",\"b\":\"later\",\"c\":\"open");
    assert_eq!(extract_u64(&json, "\"a\":"), Ok(12));
    assert_eq!(extract_u64(&json, "\"b\":"), Err("parse error"));
    assert_eq!(extract_u64(&json, "\"z\":"), Err("key not found"));
    assert_eq!(extract_string(&json, "\"b\":\""), Ok("text".to_string()));
    assert_eq!(extract_string(&json, "\"c\":\""), Err("unterminated string"));
    assert_eq!(extract_string(&json, "\"z\":\""), Err("key not found"));
    assert_eq!(extract_u64(&chars("n=18446744073709551615"), "n="), Ok(u64::MAX));
    let list = chars("\"embedding\":[ 1,\u{a0}2\u{2003},, ]");
    let expected = vec!["1", "2", "", ""];
    assert_eq!(extract_embedding(&list).unwrap(), expected);
    assert!(extract_embedding(&chars("\"embedding\":[]")).unwrap().is_empty());
}
