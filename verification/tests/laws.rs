use mapreduce::job_manager::split_file_contents;
use mapreduce::number::decimal_string;
use mapreduce::messages::{get_string, MasterMessage};
use mapreduce::worker::map::{count_words, wordcount};
use mapreduce::worker::reduce::try_wordcount;
use mapreduce::worker::shuffle::{format_shuffled, shuffle_buckets};

fn pairs(v: &[(&str, u32)]) -> Vec<(String, u32)> {
    v.iter().map(|(k, n)| (k.to_string(), *n)).collect()
}

#[test]
fn law_word_totals_on_sample() {
    let out = wordcount("to be or not to be");
    assert_eq!(out, "{\"to\":2,\"be\":2,\"or\":1,\"not\":1}");
}

#[test]
fn law_shuffle_partition_on_sample() {
    let v = pairs(&[("p", 1), ("q", 2), ("r", 3), ("s", 4), ("t", 5)]);
    let b = shuffle_buckets(&v, 3);
    let mut seen = Vec::new();
    for (h, entries) in &b {
        for e in entries {
            assert_eq!(mapreduce::worker::hasher::get_hash(&e.0, 3), *h);
            seen.push(e.clone());
        }
    }
    seen.sort();
    assert_eq!(seen, v);
}

#[test]
fn law_reduce_reads_shuffle_output_on_sample() {
    let a = pairs(&[("x", 1), ("y", 2)]);
    let b = pairs(&[("y", 3), ("z", 4)]);
    let mut file = format_shuffled(&a);
    file.extend(format_shuffled(&b));
    let text = String::from_utf8(file).unwrap();
    assert_eq!(try_wordcount(&text), Some(b"\nx 1\ny 5\nz 4\n".to_vec()));
}

#[test]
fn law_listing_reads_back_on_sample() {
    let a = pairs(&[("k\u{e9}y", 7), ("tab\tkey", 0)]);
    let text = String::from_utf8(format_shuffled(&a)).unwrap();
    assert_eq!(try_wordcount(&text), Some(format_shuffled(&a)));
}

#[test]
fn law_parse_decimal_on_sample() {
    for n in [0u64, 7, 10, 4294967295] {
        let s = decimal_string(n);
        assert_eq!(s, n.to_string());
        assert_eq!(s.parse::<u64>().unwrap(), n);
    }
}

#[test]
fn law_split_keeps_line_order_on_sample() {
    let files = split_file_contents("aa\nbb\ncc\n", 2, 3);
    assert_eq!(files, vec!["aa\n".to_string(), "bb\ncc\n".to_string()]);
    let files = split_file_contents("aa\nbb\n", 3, 4);
    assert_eq!(files, vec!["aa\nbb\n".to_string(), String::new(), String::new()]);
    let files = split_file_contents("a\n", 2, 0);
    assert_eq!(files, vec![String::new(), "a\n".to_string()]);
    let files = split_file_contents("one\ntwo\nthree", 5, 5);
    assert_eq!(
        files,
        vec!["one\ntwo\n".to_string(), "three\n".to_string(), String::new(), String::new(), String::new()]
    );
    let files = split_file_contents("", 2, 5);
    assert_eq!(files, vec![String::new(), String::new()]);
    let files = split_file_contents("aa\naa\naa\nb\n", 3, 3);
    assert_eq!(files, vec!["aa\n".to_string(), "aa\n".to_string(), "aa\nb\n".to_string()]);
    let files = split_file_contents("one line\n", 3, 3);
    assert_eq!(files.len(), 3);
    assert_eq!(files.concat(), "one line\n");
    assert!(split_file_contents("x\n", 0, 1).is_empty());
}

#[test]
fn law_word_counts_add_on_sample() {
    let joined = count_words("to be, or not ");
    let a = count_words("to be,");
    let b = count_words("or not");
    assert_eq!(joined.entries().len(), a.entries().len() + b.entries().len());
    let both = count_words("to be to");
    assert_eq!(both.entries(), &pairs(&[("to", 2), ("be", 1)]));
}

#[test]
fn law_reduce_twice_on_sample() {
    let once = try_wordcount("a 1\nb 2\na 3\n").unwrap();
    let text = String::from_utf8(once.clone()).unwrap();
    assert_eq!(try_wordcount(&text).unwrap(), once);
}

#[test]
fn law_message_reads_back_on_sample() {
    let m = MasterMessage::MapDirective {
        id: 3,
        input_file: "wc_map_split_1.txt".to_string(),
        output_file: "wc_shuffle_split_1.txt".to_string(),
    };
    let bytes = m.to_u8_vec();
    assert!(!bytes.contains(&0));
    let mut buf = [0u8; 512];
    buf[..bytes.len()].copy_from_slice(&bytes);
    assert_eq!(get_string(&buf), m.to_json());
}

#[test]
fn law_distributed_count_on_sample() {
    let text = "the cat saw the dog\nthe dog ran, the end\n";
    let files = split_file_contents(text, 2, 10);
    assert_eq!(files.concat(), text);
    let mut buckets: std::collections::BTreeMap<String, Vec<u8>> = std::collections::BTreeMap::new();
    for f in &files {
        let json = wordcount(f);
        let out = mapreduce::worker::shuffle::shuffle("wc_reduce", &json, 3).unwrap();
        for (name, bytes) in out {
            buckets.entry(name).or_default().extend(bytes);
        }
    }
    let mut distributed: std::collections::HashMap<String, u32> = std::collections::HashMap::new();
    for bytes in buckets.values() {
        let reduced = try_wordcount(std::str::from_utf8(bytes).unwrap()).unwrap();
        for line in String::from_utf8(reduced).unwrap().lines() {
            if let Some((k, v)) = line.split_once(' ') {
                assert!(distributed.insert(k.to_string(), v.parse().unwrap()).is_none());
            }
        }
    }
    let single: std::collections::HashMap<String, u32> = count_words(text).entries().iter().cloned().collect();
    assert_eq!(distributed, single);
    assert_eq!(single["the"], 4);
}
