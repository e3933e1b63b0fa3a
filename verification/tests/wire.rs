use mapreduce::ip_finder::{ip_string, peers, scan_target_of};
use mapreduce::messages::{find_message_end, get_string, MasterMessage, SlaveMessage};
use mapreduce::singlenode::wordcount_report;

#[test]
fn directives_as_json() {
    let m = MasterMessage::MapDirective {
        id: 1,
        input_file: "a".to_string(),
        output_file: "b\"c".to_string(),
    };
    assert_eq!(m.to_json(), "{\"MapDirective\":{\"id\":1,\"input_file\":\"a\",\"output_file\":\"b\\\"c\"}}");
    let m = MasterMessage::ShuffleDirective { id: 20, input_file: "s.txt".to_string(), splits: 4 };
    assert_eq!(
        m.to_u8_vec(),
        b"{\"ShuffleDirective\":{\"id\":20,\"input_file\":\"s.txt\",\"splits\":4}}".to_vec()
    );
    let m = MasterMessage::ReduceDirective {
        id: 0,
        input_file: "r".to_string(),
        output_file: "o".to_string(),
    };
    assert_eq!(m.to_json(), "{\"ReduceDirective\":{\"id\":0,\"input_file\":\"r\",\"output_file\":\"o\"}}");
}

#[test]
fn reports_as_json() {
    assert_eq!(SlaveMessage::Done(3).to_json(), "{\"Done\":3}");
    assert_eq!(SlaveMessage::Done(45).to_u8_vec(), b"{\"Done\":45}".to_vec());
}

#[test]
fn received_text_ends_at_zero_byte() {
    assert_eq!(find_message_end(b"abc\0def"), 3);
    assert_eq!(get_string(b"abc\0def\0"), "abc");
    assert_eq!(find_message_end(b"abc"), 0);
    assert_eq!(get_string(b"abc"), "");
    assert_eq!(get_string("h\u{e9}\0".as_bytes()), "h\u{e9}");
}

#[test]
fn addresses_and_peers() {
    let ip = 0xC0A8_0001u32;
    assert_eq!(ip_string(ip), "192.168.0.1");
    assert_eq!(ip_string(0x0A00_00FF), "10.0.0.255");
    assert_eq!(scan_target_of(ip), "192.168.0.*");
    assert_eq!(
        peers("192.168.0.1\n192.168.0.2\n192.168.0.3\n", ip),
        vec!["192.168.0.2".to_string(), "192.168.0.3".to_string()]
    );
    assert_eq!(peers("", ip), Vec::<String>::new());
}

#[test]
fn singlenode_report() {
    assert_eq!(wordcount_report("a b a"), "a 2\nb 1\n\n");
    assert_eq!(wordcount_report(""), "\n");
}
