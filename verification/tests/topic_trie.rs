use std::str::FromStr;

use topic_tree::DecodeError;
use topic_tree::Level;
use topic_tree::Topic;
use topic_tree::TopicTree;
use topic_tree::VecToString;
use topic_tree::VecToTopic;

/// Parses a topic or filter string through the external topic model and
/// converts its levels into the library's own.
fn parse(s: &str) -> Topic {
    let tf = ntex_mqtt::TopicFilter::from_str(s).unwrap();
    let mut levels: Vec<Level> = Vec::new();
    for l in tf.levels() {
        levels.push(match l {
            ntex_mqtt::TopicFilterLevel::Normal(t) => {
                let txt: &str = t.as_ref();
                Level::Normal(txt.as_bytes().to_vec())
            }
            ntex_mqtt::TopicFilterLevel::System(t) => {
                let txt: &str = t.as_ref();
                Level::Metadata(txt.as_bytes().to_vec())
            }
            ntex_mqtt::TopicFilterLevel::Blank => Level::Blank,
            ntex_mqtt::TopicFilterLevel::SingleWildcard => Level::SingleWildcard,
            ntex_mqtt::TopicFilterLevel::MultiWildcard => Level::MultiWildcard,
        });
    }
    Topic::from_levels(levels)
}

fn match_one(topics: &TopicTree<u64>, topic: &str, vs: &[u64]) -> bool {
    let mut matcheds = 0;
    let t = parse(topic);
    let matcher = topics.matches(&t);
    let mut it = matcher.iter();
    while let Some((topic_filter, matched)) = it.next() {
        println!("[topic] {}({}) => {:?}, {:?}", topic, topic_filter.to_string(), matched, vs);
        let matched_len = matched.iter().filter(|v| vs.contains(v)).count();
        if matched_len != matched.len() {
            return false;
        }
        matcheds += matched.len();
    }
    matcheds == vs.len()
}

/// The set of values matched for a topic, over all matching filters.
fn matched_values(topics: &TopicTree<u64>, topic: &str) -> Vec<u64> {
    let t = parse(topic);
    let matcher = topics.matches(&t);
    let mut it = matcher.iter();
    let mut out: Vec<u64> = Vec::new();
    while let Some((_, matched)) = it.next() {
        for v in matched {
            if !out.contains(&v) {
                out.push(v);
            }
        }
    }
    out.sort();
    out
}

#[test]
fn topic() {
    let mut topics: TopicTree<u64> = TopicTree::default();
    topics.insert(&parse("/iot/b/x"), 1);
    topics.insert(&parse("/iot/b/x"), 2);
    topics.insert(&parse("/iot/b/y"), 3);
    topics.insert(&parse("/iot/cc/dd"), 4);
    topics.insert(&parse("/ddl/22/#"), 5);
    topics.insert(&parse("/ddl/+/+"), 6);
    topics.insert(&parse("/ddl/+/1"), 7);
    topics.insert(&parse("/ddl/#"), 8);
    topics.insert(&parse("/xyz/yy/zz"), 7);
    topics.insert(&parse("/xyz"), 8);

    println!("{}", topics.list(100).join("\n"));

    assert!(match_one(&topics, "/iot/b/x", &[1, 2]));
    assert!(match_one(&topics, "/iot/b/y", &[3]));
    assert!(match_one(&topics, "/iot/cc/dd", &[4]));
    assert!(!match_one(&topics, "/iot/cc/dd", &[0]));
    assert!(match_one(&topics, "/xyz/yy/zz", &[7]));
    assert!(match_one(&topics, "/ddl/22/1/2", &[5, 8]));
    assert!(match_one(&topics, "/ddl/22/1", &[5, 6, 7, 8]));
    assert!(match_one(&topics, "/ddl/22/", &[5, 6, 8]));
    assert!(match_one(&topics, "/ddl/22", &[5, 8]));

    assert!(topics.remove(&parse("/iot/b/x"), &2));
    assert!(topics.remove(&parse("/xyz/yy/zz"), &7));
    assert!(!topics.remove(&parse("/xyz"), &123));

    assert!(!match_one(&topics, "/xyz/yy/zz", &[7]));

    //------------------------------------------------------
    let mut topics: TopicTree<u64> = TopicTree::default();
    topics.insert(&parse("/a/b/c"), 1);
    topics.insert(&parse("/a/+"), 2);
    topics.insert(&parse("/iot/b/c"), 1);
    topics.insert(&parse("/iot/b"), 2);
    topics.insert(&parse("/iot/#"), 3);
    topics.insert(&parse("/iot/10"), 10);
    topics.insert(&parse("/iot/11"), 11);

    let start = std::time::Instant::now();
    for v in 1..10000u64 {
        topics.insert(&parse(&format!("/iot/{}", v)), v);
    }
    for v in 1..10000u64 {
        topics.insert(&parse("/iot/x"), v);
    }
    println!("insert cost time: {:?}", start.elapsed());

    let topics: TopicTree<u64> = TopicTree::decode(&topics.encode()).unwrap();

    assert!(match_one(&topics, "/a/b/c", &[1]));
    assert!(match_one(&topics, "/a/b", &[2]));
    assert!(match_one(&topics, "/a/1", &[2]));

    let t = parse("/iot/x");
    let start = std::time::Instant::now();
    let matcher = topics.matches(&t);
    let mut it = matcher.iter();
    while let Some((topic_filter, matched)) = it.next() {
        println!("[topic] /iot/x({}) => len: {}", topic_filter.to_string(), matched.len());
    }
    println!("cost time: {:?}", start.elapsed());

    let start = std::time::Instant::now();
    assert!(topics.is_match(&t));
    println!("is_matches cost time: {:?}", start.elapsed());
}

#[test]
fn insert_is_set_like() {
    let mut topics: TopicTree<u64> = TopicTree::default();
    assert!(topics.insert(&parse("a/b"), 1));
    assert!(topics.insert(&parse("a/b"), 2));
    assert!(!topics.insert(&parse("a/b"), 1));
    assert_eq!(matched_values(&topics, "a/b"), vec![1, 2]);
    assert_eq!(topics.values_size(), 2);
}

#[test]
fn remove_absent_and_pruning() {
    let mut topics: TopicTree<u64> = TopicTree::default();
    topics.insert(&parse("a/b/c"), 7);
    assert_eq!(topics.nodes_size(), 3);
    assert!(!topics.remove(&parse("a/b/c"), &8));
    assert!(!topics.remove(&parse("a/x"), &7));
    assert_eq!(topics.nodes_size(), 3);
    assert_eq!(topics.values_size(), 1);
    assert!(topics.remove(&parse("a/b/c"), &7));
    assert_eq!(topics.nodes_size(), 0);
    assert_eq!(topics.values_size(), 0);
}

#[test]
fn wildcard_matching_rules() {
    let mut topics: TopicTree<u64> = TopicTree::default();
    topics.insert(&parse("a/b/c"), 1);
    topics.insert(&parse("a/+/c"), 2);
    topics.insert(&parse("a/#"), 3);
    topics.insert(&parse("a/b"), 4);
    assert_eq!(matched_values(&topics, "a/b/c"), vec![1, 2, 3]);
}

#[test]
fn multi_wildcard_matches_zero_levels() {
    let mut topics: TopicTree<u64> = TopicTree::default();
    topics.insert(&parse("#"), 1);
    assert!(topics.is_match(&parse("a")));
    assert!(topics.is_match(&parse("a/b/c")));
    assert!(topics.is_match(&Topic::from_levels(Vec::new())));

    let mut t2: TopicTree<u64> = TopicTree::default();
    t2.insert(&parse("+/+/#"), 9);
    assert!(t2.is_match(&parse("a/b")));
    assert!(!t2.is_match(&parse("a")));
}

#[test]
fn metadata_topics_skip_root_wildcards() {
    let mut topics: TopicTree<u64> = TopicTree::default();
    topics.insert(&parse("#"), 1);
    topics.insert(&parse("+/x"), 2);
    assert!(!topics.is_match(&parse("$sys/x")));

    let mut t2: TopicTree<u64> = TopicTree::default();
    t2.insert(&parse("$sys/x"), 3);
    assert!(t2.is_match(&parse("$sys/x")));
    assert_eq!(matched_values(&t2, "$sys/x"), vec![3]);
}

#[test]
fn is_match_agrees_with_first() {
    let mut topics: TopicTree<u64> = TopicTree::default();
    topics.insert(&parse("a/+"), 1);
    let t = parse("a/b");
    let matcher = topics.matches(&t);
    let first = matcher.first();
    assert!(topics.is_match(&t));
    assert!(first.is_some());
    let via_iter = topics.matches(&t).iter().next();
    let a = first.unwrap();
    let b = via_iter.unwrap();
    assert_eq!(a.0.to_string(), b.0.to_string());
    assert_eq!(a.1, b.1);

    let u = parse("c/d");
    assert!(!topics.is_match(&u));
    assert!(topics.matches(&u).first().is_none());
}

#[test]
fn codec_round_trip() {
    let mut topics: TopicTree<u64> = TopicTree::default();
    topics.insert(&parse("/iot/b/x"), 1);
    topics.insert(&parse("/iot/b/x"), 2);
    topics.insert(&parse("/ddl/#"), 8);
    topics.insert(&parse("$sys/health"), 9);
    topics.insert(&parse("a/+/c"), 3);
    let bytes = topics.encode();
    let back: TopicTree<u64> = TopicTree::decode(&bytes).unwrap();
    for probe in ["/iot/b/x", "/ddl/22/1", "/ddl", "$sys/health", "a/b/c", "a/b", "zzz"] {
        assert_eq!(matched_values(&topics, probe), matched_values(&back, probe));
    }
    assert_eq!(bytes, back.encode());
}

#[test]
fn decode_rejects_malformed_bytes() {
    assert!(TopicTree::<u64>::decode(&Vec::new()).is_err());
    assert!(TopicTree::<u64>::decode(&vec![1u8, 2, 3]).is_err());
    let mut topics: TopicTree<u64> = TopicTree::default();
    topics.insert(&parse("a"), 1);
    let mut bytes = topics.encode();
    bytes.push(0);
    assert_eq!(TopicTree::<u64>::decode(&bytes).err(), Some(DecodeError));
}

#[test]
fn matched_paths_render_and_rebuild() {
    let mut topics: TopicTree<u64> = TopicTree::default();
    topics.insert(&parse("a/+/c"), 1);
    let t = parse("a/b/c");
    let matcher = topics.matches(&t);
    let (path, values) = matcher.first().unwrap();
    assert_eq!(path.to_string(), "a/+/c");
    assert_eq!(values, vec![1]);
    let rebuilt = path.to_topic();
    assert_eq!(rebuilt.levels().len(), 3);

    let mut t2: TopicTree<u64> = TopicTree::default();
    t2.insert(&rebuilt, 5);
    assert!(t2.is_match(&parse("a/zz/c")));
}

#[test]
fn traversal_order_is_fixed() {
    let mut topics: TopicTree<u64> = TopicTree::default();
    topics.insert(&parse("a/b"), 1);
    topics.insert(&parse("a/+"), 2);
    topics.insert(&parse("a/#"), 3);
    let t = parse("a/b");
    let matcher = topics.matches(&t);
    let mut it = matcher.iter();
    let mut order: Vec<String> = Vec::new();
    while let Some((path, _)) = it.next() {
        order.push(path.to_string());
    }
    // wildcard values first, then the single-level branch, then the literal
    assert_eq!(order, vec!["a/#".to_owned(), "a/+".to_owned(), "a/b".to_owned()]);
}

#[test]
fn list_reports_each_branch() {
    let mut topics: TopicTree<u64> = TopicTree::default();
    topics.insert(&parse("a/b"), 1);
    topics.insert(&parse("a/c"), 2);
    let lines = topics.list(100);
    assert_eq!(lines.len(), 3);
    let shallow = topics.list(1);
    assert_eq!(shallow.len(), 1);
    assert_eq!(topics.list(0).len(), 0);
}

#[test]
fn to_string_handles_unicode_texts() {
    let mut topics: TopicTree<u64> = TopicTree::default();
    topics.insert(&parse("caf\u{e9}/+"), 1);
    let t = parse("caf\u{e9}/x");
    let matcher = topics.matches(&t);
    let (path, values) = matcher.first().unwrap();
    assert_eq!(path.to_string(), "caf\u{e9}/+");
    assert_eq!(values, vec![1]);
}

#[test]
fn decode_accepts_every_encoding() {
    let mut topics: TopicTree<u64> = TopicTree::default();
    for (f, v) in [("a/b", 1u64), ("a/#", 2), ("+/c", 3), ("$sys/d", 4), ("//", 5)] {
        topics.insert(&parse(f), v);
    }
    let back = TopicTree::decode(&topics.encode());
    assert!(back.is_ok());
    assert_eq!(back.unwrap().encode(), topics.encode());
}
