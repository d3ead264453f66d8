use rand::rngs::SmallRng;
use rand::{Rng, SeedableRng};

use neo8ball::helpers::{case_cmp, irc_uppercase, join_channels, parse_cap, part_channels, CaseMapping};
use neo8ball::iter::{BufIterator, TruncStatus};
use neo8ball::parse::Message;

#[test]
fn uppercase() {
    assert!(case_cmp(&CaseMapping::Rfc1459, b"^{|}", b"~[\\]"));
    assert!(case_cmp(&CaseMapping::Rfc1459, b"^{|}abc", b"~[\\]ABC"));
    assert!(!case_cmp(&CaseMapping::Ascii, b"^{|}abc", b"~[\\]ABC"));
}

#[test]
fn case_mapping_symmetry() {
    assert!(case_cmp(&CaseMapping::Rfc1459, b"^{|}", b"~[\\]"));
    assert!(!case_cmp(&CaseMapping::Ascii, b"^{|}", b"~[\\]"));
    assert!(!case_cmp(&CaseMapping::Unicode, b"^{|}", b"~[\\]"));
    assert_eq!(irc_uppercase(&CaseMapping::Rfc1459, b"a^{|}z~"), b"A~[\\]Z~".to_vec());
    assert_eq!(irc_uppercase(&CaseMapping::Ascii, b"a^{|}z"), b"A^{|}Z".to_vec());
}

#[test]
fn mass_channel_join() {
    let mut prng = SmallRng::seed_from_u64(123456789);
    let mut channels = Vec::new();
    while channels.len() < 256 {
        let mut channel = "#".to_owned();
        for _ in 0..prng.gen_range(5..30) {
            channel.push(prng.gen_range('a'..'z'));
        }
        channels.push(channel);
    }

    let mut channels2: Vec<String> = Vec::new();
    let res = join_channels(&channels);
    let mut lines = BufIterator::new(&res);
    while let Some(line) = lines.next() {
        match line {
            TruncStatus::Full(msg) => {
                assert!(msg.len() <= 512);
                let m = Message::new(msg);
                let list = m.parameters().next().unwrap();
                for chan in list.split(|&chr| chr == b',') {
                    channels2.push(String::from_utf8_lossy(chan).to_string());
                }
            }
            TruncStatus::Part(_) => panic!("shouldn't happen."),
        }
    }

    assert_eq!(channels.len(), channels2.len());
    for (lhs, rhs) in channels.iter().zip(channels2.iter()) {
        assert_eq!(lhs, rhs);
    }
}

#[test]
fn join_packing_exact() {
    let chans = vec!["#a".to_owned(), "#bc".to_owned()];
    assert_eq!(join_channels(&chans), b"JOIN #a,#bc\r\n".to_vec());
    assert_eq!(part_channels(&chans), b"PART #a,#bc\r\n".to_vec());
    assert_eq!(join_channels(&Vec::new()), b"\r\n".to_vec());
}

#[test]
fn join_packing_splits_lines() {
    // "JOIN " and one name make 205 bytes, a second makes 406, a third would pass 510
    let long = |c: char| format!("#{}", c.to_string().repeat(199));
    let chans = vec![long('a'), long('b'), long('c')];
    let out = join_channels(&chans);
    let expected = format!("JOIN {},{}\r\nJOIN {}\r\n", chans[0], chans[1], chans[2]);
    assert_eq!(out, expected.into_bytes());
}

#[test]
fn cap_ack_detection() {
    assert!(parse_cap(&Message::new(b":srv CAP * ACK :multi-prefix")));
    assert!(parse_cap(&Message::new(b":srv CAP bot ACK :sasl multi-prefix")));
    assert!(!parse_cap(&Message::new(b":srv CAP bot NAK :multi-prefix")));
    assert!(!parse_cap(&Message::new(b":srv CAP bot ACK :multi-prefixes")));
    assert!(!parse_cap(&Message::new(b":srv CAP bot ACK")));
    assert!(!parse_cap(&Message::new(b":srv CAP")));
}
