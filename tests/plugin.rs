use neo8ball::iter::TruncStatus;
use neo8ball::parse::Message;
use neo8ball::plugin::{Plugin, PluginReadStat, PLUGIN_BUF_SIZ};

/// Hands the plugin the next read of `src`, as large as its free space.
fn feed(plug: &mut Plugin, src: &[u8], pos: &mut usize) -> PluginReadStat {
    let n = plug.free_space().min(src.len() - *pos);
    let st = plug.receive(&src[*pos..*pos + n]);
    *pos += n;
    st
}

fn params(m: &Message) -> Vec<Vec<u8>> {
    let mut it = m.parameters();
    let mut out = Vec::new();
    while let Some(p) = it.next() {
        out.push(p.to_vec());
    }
    out
}

#[test]
fn large_output_truncation() {
    // a line far longer than the buffer, ending in "a", then a normal one
    let mut src = b"PRIVMSG #test :".to_vec();
    src.extend(std::iter::repeat(b' ').take(1000));
    src.extend_from_slice(b"a\nPRIVMSG #test :Hello, World!\n");
    let mut pos = 0usize;
    let mut plug = Plugin::new();
    let mut fulls = 0;

    loop {
        match feed(&mut plug, &src, &mut pos) {
            PluginReadStat::Okay => (),
            PluginReadStat::Eof => break,
            PluginReadStat::Blocked => (),
            PluginReadStat::ReadBufferFull => {
                let mut it = plug.iter();
                while let Some(out) = it.next() {
                    match out {
                        TruncStatus::Full(out) => {
                            fulls += 1;
                            let m = Message::new(out);
                            let p = params(&m);
                            assert_eq!(m.command.as_deref(), Some(&b"PRIVMSG"[..]));
                            assert_eq!(p[0], b"#test");
                            // the trailing a is not in this message
                            assert!(!p[1].iter().any(|&chr| chr != b' '));
                        }
                        TruncStatus::Part(_) => {
                            panic!("We should have truncated output and appended a newline!")
                        }
                    };
                }
                plug.reset_buf();
            }
        }
    }
    assert_eq!(fulls, 1);

    let mut it = plug.iter();
    let mut seen = 0;
    while let Some(out) = it.next() {
        match out {
            TruncStatus::Full(out) => {
                seen += 1;
                let m = Message::new(out);
                let p = params(&m);
                assert_eq!(m.command.as_deref(), Some(&b"PRIVMSG"[..]));
                assert_eq!(p[0], b"#test");
                assert_eq!(p[1], b"Hello, World!");
            }
            TruncStatus::Part(_) => {
                panic!("We should have truncated output and appended a newline!")
            }
        }
    }
    assert_eq!(seen, 1);
}

#[test]
fn test_partial_trunc() {
    // many short lines: a full buffer ends inside one of them
    let src = b"PRIVMSG #test :Hello, World!\n".repeat(30);
    let mut pos = 0usize;
    let mut plug = Plugin::new();
    let mut count = 0;

    loop {
        match feed(&mut plug, &src, &mut pos) {
            PluginReadStat::Okay => (),
            PluginReadStat::Eof => break,
            PluginReadStat::Blocked => (),
            PluginReadStat::ReadBufferFull => {
                let mut split_at = 0usize;
                let mut it = plug.iter();
                while let Some(out) = it.next() {
                    match out {
                        TruncStatus::Full(out) => {
                            count += 1;
                            let m = Message::new(out);
                            let p = params(&m);
                            assert_eq!(m.command.as_deref(), Some(&b"PRIVMSG"[..]));
                            assert_eq!(p[0], b"#test");
                            assert!(!p[1]
                                .iter()
                                .last()
                                .and_then(|&chr| if chr == b'a' { Some(()) } else { None })
                                .is_some());
                        }
                        TruncStatus::Part(out) => {
                            split_at = plug.get_slice_pos(out);
                        }
                    };
                }
                // we should have truncated data.
                assert!(split_at != 0);
                plug.split_at(split_at);
            }
        }
    }

    let mut it = plug.iter();
    while let Some(out) = it.next() {
        match out {
            TruncStatus::Full(out) => {
                count += 1;
                let m = Message::new(out);
                let p = params(&m);
                assert_eq!(m.command.as_deref(), Some(&b"PRIVMSG"[..]));
                assert_eq!(p[0], b"#test");
                assert_eq!(p[1], b"Hello, World!");
            }
            TruncStatus::Part(_) => {
                panic!("We should not have truncated output!")
            }
        }
    }
    assert_eq!(count, 30);
}

#[test]
fn full_buffer_with_newline_is_left_for_draining() {
    let mut plug = Plugin::new();
    let mut data = b"x\n".to_vec();
    data.extend(std::iter::repeat(b'y').take(PLUGIN_BUF_SIZ - 2));
    assert_eq!(plug.receive(&data), PluginReadStat::Okay);
    assert_eq!(plug.free_space(), 0);
    assert_eq!(plug.receive(&[]), PluginReadStat::ReadBufferFull);
    assert_eq!(plug.get_buf(), data.as_slice());
}

#[test]
fn overflow_forces_newline_and_discards_to_next_line() {
    let mut plug = Plugin::new();
    let data = vec![b'z'; PLUGIN_BUF_SIZ];
    assert_eq!(plug.receive(&data), PluginReadStat::Okay);
    assert_eq!(plug.receive(&[]), PluginReadStat::ReadBufferFull);
    assert_eq!(plug.get_buf()[PLUGIN_BUF_SIZ - 1], b'\n');
    plug.reset_buf();
    assert_eq!(plug.receive(b"zzz"), PluginReadStat::Okay);
    assert!(plug.get_buf().is_empty());
    assert_eq!(plug.receive(b"zz\nnext"), PluginReadStat::Okay);
    assert_eq!(plug.get_buf(), b"next");
    assert_eq!(plug.receive(&[]), PluginReadStat::Eof);
}

#[test]
fn split_at_keeps_tail() {
    let mut plug = Plugin::new();
    plug.receive(b"abc\ndef");
    let pos = plug.get_slice_pos(b"def");
    assert_eq!(pos, 4);
    plug.split_at(pos);
    assert_eq!(plug.get_buf(), b"def");
    plug.receive(b"g\n");
    assert_eq!(plug.get_buf(), b"defg\n");
    plug.split_at(0);
    assert!(plug.get_buf().is_empty());
}
