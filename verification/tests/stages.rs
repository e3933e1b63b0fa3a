use mapreduce::slave;
use mapreduce::worker::hasher::{get_hash, try_get_hash};
use mapreduce::worker::map::{count_words, matrix, try_map, wordcount, JobKind, job_kind_of};
use mapreduce::worker::reduce::{format_reduced, matrix_groups, try_wordcount, wordcount as reduce_wordcount};
use mapreduce::worker::shuffle::{format_shuffled, shuffle, shuffle_buckets, split_file_name};

fn pairs(v: &[(&str, u32)]) -> Vec<(String, u32)> {
    v.iter().map(|(k, n)| (k.to_string(), *n)).collect()
}

#[test]
fn hash_of_short_word() {
    // 1*1*97 % 5 = 2, 2*2*98 % 5 = 2, 3*3*99 % 5 = 1; (2 + 2 + 1) % 5 + 1 = 1
    assert_eq!(get_hash("abc", 5), 1);
    assert_eq!(try_get_hash("abc", 5), Some(1));
    assert_eq!(slave::hasher::get_hash("abc", 5), 1);
    // past a byte: 97 + 392 % 200 + 891 % 200 = 380, and 380 % 200 + 1 == 181
    assert_eq!(slave::hasher::get_hash("abc", 200), 181);
    assert_eq!(slave::hasher::get_hash("abc", 200) as usize, get_hash("abc", 200));
    let long = "z".repeat(1000);
    let h = slave::hasher::get_hash(&long, 255);
    assert!(1 <= h && h <= 255);
}

#[test]
fn hash_stays_in_range() {
    for lim in 1..20usize {
        for w in ["", "a", "hello", "Pride", "prejudice", "Ünïcødé"] {
            let h = get_hash(w, lim);
            assert!(1 <= h && h <= lim);
        }
    }
    assert_eq!(get_hash("", 7), 1);
}

#[test]
fn hash_uses_low_byte_of_char() {
    // 'Ā' is U+0100, whose low byte is 0
    assert_eq!(get_hash("Ā", 10), 1);
    assert_eq!(get_hash("a", 10), 97 % 10 + 1);
}

#[test]
fn wordcount_map_counts_words() {
    assert_eq!(wordcount("a b a"), "{\"a\":2,\"b\":1}");
    assert_eq!(wordcount("Hello, world! hello"), "{\"Hello\":1,\"world\":1,\"hello\":1}");
    assert_eq!(wordcount(""), "{}");
    assert_eq!(wordcount(" .,\n\t?!'\"_-"), "{}");
    assert_eq!(wordcount("it's well-known"), "{\"it\":1,\"s\":1,\"well\":1,\"known\":1}");
}

#[test]
fn wordcount_map_escapes_keys() {
    assert_eq!(wordcount("a\\b"), "{\"a\\\\b\":1}");
    assert_eq!(wordcount("\u{1}x y\r"), "{\"\\u0001x\":1,\"y\\r\":1}");
    assert_eq!(wordcount("caf\u{e9}"), "{\"caf\u{e9}\":1}");
}

#[test]
fn wordcount_map_matches_serde_json() {
    let out = wordcount("the cat and the hat, the end");
    let parsed: std::collections::HashMap<String, u32> = serde_json::from_str(&out).unwrap();
    assert_eq!(parsed.len(), 5);
    assert_eq!(parsed["the"], 3);
    assert_eq!(parsed["cat"], 1);
    assert_eq!(parsed["end"], 1);
}

#[test]
fn count_words_in_first_appearance_order() {
    let t = count_words("x y x z y x");
    assert_eq!(t.entries(), &pairs(&[("x", 3), ("y", 2), ("z", 1)]));
}

#[test]
fn matrix_map_sends_entry_to_every_column() {
    let out = matrix("A 0 1 5\n");
    assert!(out.starts_with("{\"0 0\":[[\"A\",\"1\",\"5\"]],\"0 1\":[[\"A\",\"1\",\"5\"]],"));
    assert!(out.ends_with(",\"0 49\":[[\"A\",\"1\",\"5\"]]}"));
    let parsed: std::collections::HashMap<String, Vec<(String, String, String)>> =
        serde_json::from_str(&out).unwrap();
    assert_eq!(parsed.len(), 50);
}

#[test]
fn matrix_map_groups_rows() {
    let out = matrix("A 0 1 5\nB 1 0 2.5\nB 0 3 7 extra\n");
    let parsed: std::collections::HashMap<String, Vec<(String, String, String)>> =
        serde_json::from_str(&out).unwrap();
    assert_eq!(parsed.len(), 100);
    assert_eq!(
        parsed["0 7"],
        vec![
            ("A".to_string(), "1".to_string(), "5".to_string()),
            ("B".to_string(), "3".to_string(), "7".to_string())
        ]
    );
    assert_eq!(parsed["1 49"], vec![("B".to_string(), "0".to_string(), "2.5".to_string())]);
}

#[test]
fn map_dispatches_on_job_name() {
    assert_eq!(job_kind_of("wordcount"), Some(JobKind::WordCount));
    assert_eq!(job_kind_of("matrix"), Some(JobKind::Matrix));
    assert_eq!(job_kind_of("other"), None);
    assert_eq!(mapreduce::worker::map::map("wordcount", "b a b"), "{\"b\":2,\"a\":1}");
    assert_eq!(try_map("sort", "b a b"), None);
    assert_eq!(try_map("matrix", "A 0 1\n"), None);
    assert_eq!(try_map("matrix", ""), Some("{}".to_string()));
}

#[test]
fn format_listings() {
    let v = pairs(&[("foo", 6), ("bar", 3)]);
    assert_eq!(format_reduced(&v), b"\nfoo 6\nbar 3\n".to_vec());
    assert_eq!(format_shuffled(&v), b"\nfoo 6\nbar 3\n".to_vec());
    assert_eq!(format_reduced(&Vec::new()), b"\n".to_vec());
    assert_eq!(format_shuffled(&pairs(&[("\u{e9}", 1)])), "\n\u{e9} 1\n".as_bytes().to_vec());
}

#[test]
fn reduce_adds_up_counts() {
    assert_eq!(
        reduce_wordcount("\nfoo 2\nbar 3\nfoo 4\n"),
        b"\nfoo 6\nbar 3\n".to_vec()
    );
    assert_eq!(try_wordcount("  foo 1  \r\n\n   \nfoo +5"), Some(b"\nfoo 6\n".to_vec()));
    assert_eq!(try_wordcount(""), Some(b"\n".to_vec()));
}

#[test]
fn reduce_rejects_malformed_input() {
    assert_eq!(try_wordcount("foo\n"), None);
    assert_eq!(try_wordcount("foo x\n"), None);
    assert_eq!(try_wordcount("foo 1 2\n"), None);
    assert_eq!(try_wordcount("foo -1\n"), None);
    assert_eq!(try_wordcount("foo 4294967296\n"), None);
}

#[test]
fn reduce_rejects_overflowing_totals() {
    assert_eq!(try_wordcount("a 4294967295\nb 1\n"), Some(b"\na 4294967295\nb 1\n".to_vec()));
    assert_eq!(try_wordcount("a 4294967295\na 1\n"), None);
}

#[test]
fn shuffle_buckets_by_hash() {
    let v = pairs(&[("abc", 1), ("a", 2), ("b", 3)]);
    // "abc" -> 1, "a" -> 97 % 5 + 1 = 3, "b" -> 98 % 5 + 1 = 4
    let b = shuffle_buckets(&v, 5);
    assert_eq!(
        b,
        vec![
            (1, pairs(&[("abc", 1)])),
            (3, pairs(&[("a", 2)])),
            (4, pairs(&[("b", 3)]))
        ]
    );
    let b = shuffle_buckets(&v, 1);
    assert_eq!(b, vec![(1, v.clone())]);
}

#[test]
fn shuffle_writes_split_files() {
    // "a" hashes to 97 % 3 + 1 = 2
    let files = shuffle("job", "{\"a\":1}", 3).unwrap();
    assert_eq!(files, vec![("job_split_2.txt".to_string(), b"\na 1\n".to_vec())]);
    let files = slave::shuffle::shuffle("{\"a\":1}", 3).unwrap();
    assert_eq!(files, vec![("shuffle_split_2.txt".to_string(), b"\na 1\n".to_vec())]);
    assert_eq!(split_file_name("wc", 17), "wc_split_17.txt");
}

#[test]
fn shuffle_rejects_what_it_cannot_read() {
    assert_eq!(shuffle("job", "not json", 3), None);
    assert_eq!(shuffle("job", "{\"a\":-1}", 3), None);
    assert_eq!(shuffle("job", "{\"a\":1}", 0), None);
    assert_eq!(shuffle("job", "{}", 0), Some(Vec::new()));
}

#[test]
fn shuffle_keeps_every_entry_once() {
    let files = shuffle("s", "{\"x\":1,\"y\":2,\"z\":3,\"w\":4}", 2).unwrap();
    let mut total = 0;
    for (name, bytes) in &files {
        assert!(name == "s_split_1.txt" || name == "s_split_2.txt");
        let text = String::from_utf8(bytes.clone()).unwrap();
        total += text.lines().filter(|l| !l.is_empty()).count();
    }
    assert_eq!(total, 4);
}

#[test]
fn slave_reduce_names_output_after_split() {
    assert_eq!(slave::reduce::extract_num("data/shuffle_split_12.txt"), 12);
    assert_eq!(slave::reduce::file_number_of("a_b_7.x.txt"), None);
    assert_eq!(slave::reduce::file_number_of("a_7.txt"), Some(7));
    assert_eq!(slave::reduce::file_number_of("no_number.txt"), None);
    assert_eq!(slave::reduce::file_number_of("x_300.txt"), None);
    assert_eq!(slave::reduce::file_number_of("x_5"), None);
    assert_eq!(slave::reduce::file_number_of("x5.txt"), None);
    assert_eq!(slave::reduce::reduce_file_name(12), "reduce_split_12.txt");
    let (name, bytes) = slave::reduce::reduce("shuffle_split_3.txt", "\nk 1\nk 2\n");
    assert_eq!(name, "reduce_split_3.txt");
    let (name, _) = slave::reduce::reduce("data/out/shuffle_split_4.txt", "k 1\n");
    assert_eq!(name, "data/out/reduce_split_4.txt");
    assert_eq!(slave::reduce::dir_of("a/b/c.txt"), "a/b/");
    assert_eq!(slave::reduce::dir_of("c.txt"), "");
    assert_eq!(bytes, b"\nk 3\n".to_vec());
}

#[test]
fn matrix_reduce_groups_cells() {
    let g = matrix_groups("0 1 A 2 1.5\n0 1 B 2 2.0\n3 4 A 0 7\n0 1 A 2 9\n").unwrap();
    assert_eq!(g.len(), 2);
    assert_eq!(g[0].0, (0, 1));
    assert_eq!(g[0].1, vec![(2, "1.5".to_string()), (2, "9".to_string())]);
    assert_eq!(g[0].2, vec![(2, "2.0".to_string())]);
    assert_eq!(g[1], ((3, 4), vec![(0, "7".to_string())], vec![]));
    assert!(matrix_groups("0 1 A 2\n").is_none());
    assert!(matrix_groups("x 1 A 2 3\n").is_none());
    assert!(matrix_groups("0 1 A -2 3\n").is_none());
    assert_eq!(matrix_groups("").unwrap().len(), 0);
}
