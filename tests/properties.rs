use lexarg_parser::Arg::{Escape, Long, Short, Unexpected, Value};
use lexarg_parser::{ceil_char_boundary, split_nonutf8_once, valid_up_to, Parser, RawArgs};

fn raw(items: &[&str]) -> Vec<Vec<u8>> {
    items.iter().map(|s| s.as_bytes().to_vec()).collect()
}

#[test]
fn exhaustion_stays_exhausted() {
    let args = raw(&["-a", "b"]);
    let mut p = Parser::new(&args);
    assert_eq!(p.next_arg(), Some(Short(b"a")));
    assert_eq!(p.next_arg(), Some(Value(b"b")));
    for _ in 0..5 {
        assert_eq!(p.next_arg(), None);
        assert_eq!(p.peek_raw(), Ok(None));
    }
}

#[test]
fn escape_absorbs_everything_after_it() {
    let args = raw(&["--", "-a", "--b=c", "--", "-", "x"]);
    let mut p = Parser::new(&args);
    assert_eq!(p.next_arg(), Some(Escape(b"--")));
    assert_eq!(p.next_arg(), Some(Value(b"-a")));
    assert_eq!(p.next_arg(), Some(Value(b"--b=c")));
    assert_eq!(p.next_arg(), Some(Value(b"--")));
    assert_eq!(p.next_arg(), Some(Value(b"-")));
    assert_eq!(p.next_arg(), Some(Value(b"x")));
    assert_eq!(p.next_arg(), None);
}

#[test]
fn escape_ends_flag_values() {
    let args = raw(&["--", "v"]);
    let mut p = Parser::new(&args);
    assert_eq!(p.next_arg(), Some(Escape(b"--")));
    assert_eq!(p.next_flag_value(), None);
    assert_eq!(p.next_attached_value(), None);
    assert_eq!(p.next_arg(), Some(Value(b"v")));
}

#[test]
fn long_option_value_round_trip() {
    let args = raw(&["--bar=qux"]);
    let mut p = Parser::new(&args);
    assert_eq!(p.next_arg(), Some(Long(b"bar")));
    assert_eq!(p.next_flag_value(), Some(b"qux".as_slice()));
    assert_eq!(p.next_flag_value(), None);
    assert_eq!(p.next_arg(), None);
}

#[test]
fn unclaimed_attached_value_surfaces() {
    let args = raw(&["--foobar=qux=baz"]);
    let mut p = Parser::new(&args);
    assert_eq!(p.next_arg(), Some(Long(b"foobar")));
    assert_eq!(p.next_arg(), Some(Unexpected(b"qux=baz")));
    assert_eq!(p.next_arg(), None);
}

#[test]
fn short_cluster_walk() {
    let args = raw(&["-abc"]);
    let mut p = Parser::new(&args);
    assert_eq!(p.next_arg(), Some(Short(b"a")));
    assert_eq!(p.next_arg(), Some(Short(b"b")));
    assert_eq!(p.next_arg(), Some(Short(b"c")));
    assert_eq!(p.next_arg(), None);
}

#[test]
fn attached_short_value_strips_one_equals() {
    let args = raw(&["-x="]);
    let mut p = Parser::new(&args);
    assert_eq!(p.next_arg(), Some(Short(b"x")));
    assert_eq!(p.next_flag_value(), Some(b"".as_slice()));

    let args = raw(&["-x=="]);
    let mut p = Parser::new(&args);
    assert_eq!(p.next_arg(), Some(Short(b"x")));
    assert_eq!(p.next_flag_value(), Some(b"=".as_slice()));
}

#[test]
fn attached_value_absent_at_end_of_cluster() {
    let args = raw(&["-ab", "c"]);
    let mut p = Parser::new(&args);
    assert_eq!(p.next_arg(), Some(Short(b"a")));
    assert_eq!(p.next_arg(), Some(Short(b"b")));
    assert_eq!(p.next_attached_value(), None);
    assert_eq!(p.next_arg(), Some(Value(b"c")));
}

#[test]
fn lone_dash_is_a_value() {
    let args = raw(&["-"]);
    let mut p = Parser::new(&args);
    assert_eq!(p.next_arg(), Some(Value(b"-")));
    assert_eq!(p.next_arg(), None);
}

#[test]
fn mixed_example() {
    let args = raw(&["-n", "10", "./foo.bar"]);
    let mut p = Parser::new(&args);
    assert_eq!(p.next_arg(), Some(Short(b"n")));
    assert_eq!(p.next_flag_value(), Some(b"10".as_slice()));
    assert_eq!(p.next_arg(), Some(Value(b"./foo.bar")));
    assert_eq!(p.next_arg(), None);
}

#[test]
fn undecodable_short_cluster_is_one_unexpected() {
    for tail in [vec![0xFFu8], vec![0x80, b'a'], vec![0xC0, 0x80], vec![0xFF, b'=', 0xFF, b'-']] {
        let mut arg = vec![b'-'];
        arg.extend_from_slice(&tail);
        let args = vec![arg.clone(), b"next".to_vec()];
        let mut p = Parser::new(&args);
        assert_eq!(p.next_arg(), Some(Unexpected(arg.as_slice())));
        assert_eq!(p.next_arg(), Some(Value(b"next")));
        assert_eq!(p.next_arg(), None);
    }
}

#[test]
fn values_come_back_whole_and_in_order() {
    let bad = vec![b'-', 0xFF, b'x'];
    let args = vec![
        b"a".to_vec(),
        b"--=v".to_vec(),
        bad.clone(),
        b"-".to_vec(),
        b"--".to_vec(),
        b"-q".to_vec(),
    ];
    let mut p = Parser::new(&args);
    let mut seen: Vec<Vec<u8>> = Vec::new();
    while let Some(arg) = p.next_arg() {
        match arg {
            Value(b) | Escape(b) | Unexpected(b) => seen.push(b.to_vec()),
            Short(_) | Long(_) => panic!("no option expected"),
        }
    }
    assert_eq!(seen, args);
}

#[test]
fn next_raw_refused_while_value_pending() {
    let args = raw(&["--a=b", "c"]);
    let mut p = Parser::new(&args);
    assert_eq!(p.next_arg(), Some(Long(b"a")));
    assert_eq!(p.next_raw(), Err(()));
    assert_eq!(p.peek_raw(), Err(()));
    assert_eq!(p.next_attached_value(), Some(b"b".as_slice()));
    assert_eq!(p.peek_raw(), Ok(Some(b"c".as_slice())));
    assert_eq!(p.next_raw(), Ok(Some(b"c".as_slice())));
    assert_eq!(p.next_raw(), Ok(None));
}

#[test]
fn detached_value_is_taken_even_if_it_looks_like_an_option() {
    let args = raw(&["--out", "-x", "--", "y"]);
    let mut p = Parser::new(&args);
    assert_eq!(p.next_arg(), Some(Long(b"out")));
    assert_eq!(p.next_flag_value(), Some(b"-x".as_slice()));
    assert_eq!(p.next_flag_value(), None);
    assert_eq!(p.next_arg(), Some(Escape(b"--")));
}

#[test]
fn long_with_empty_value_and_triple_dash() {
    let args = raw(&["--a=", "---"]);
    let mut p = Parser::new(&args);
    assert_eq!(p.next_arg(), Some(Long(b"a")));
    assert_eq!(p.next_flag_value(), Some(b"".as_slice()));
    assert_eq!(p.next_arg(), Some(Long(b"-")));
    assert_eq!(p.next_arg(), None);
}

#[test]
fn clone_explores_without_disturbing() {
    let args = raw(&["-ab"]);
    let mut p = Parser::new(&args);
    assert_eq!(p.next_arg(), Some(Short(b"a")));
    let mut q = p.clone();
    assert_eq!(q.next_flag_value(), Some(b"b".as_slice()));
    assert_eq!(p.next_arg(), Some(Short(b"b")));
}

#[test]
fn boundary_after_offset() {
    let s = "aµ💣".as_bytes();
    assert_eq!(ceil_char_boundary(s, 0), Some(1));
    assert_eq!(ceil_char_boundary(s, 1), Some(3));
    assert_eq!(ceil_char_boundary(s, 2), Some(3));
    assert_eq!(ceil_char_boundary(s, 3), Some(7));
    assert_eq!(ceil_char_boundary(s, 7), None);
    assert_eq!(ceil_char_boundary(s, 100), None);
    assert_eq!(ceil_char_boundary(b"", 0), None);
}

#[test]
fn longest_valid_prefix() {
    assert_eq!(valid_up_to(b""), 0);
    assert_eq!(valid_up_to("aµ".as_bytes()), 3);
    assert_eq!(valid_up_to(&[b'a', 0xFF, b'b']), 1);
    assert_eq!(valid_up_to(&[0xC0, 0x80]), 0);
    assert_eq!(valid_up_to(&[0xED, 0xA0, 0x80]), 0);
    assert_eq!(valid_up_to(&[0xF4, 0x90, 0x80, 0x80]), 0);
    assert_eq!(valid_up_to(&[0xE2, 0x82]), 0);
    assert_eq!(valid_up_to(&[b'x', 0xF0, 0x9F, 0x92, 0xA3]), 5);
}

#[test]
fn split_at_first_invalid_byte() {
    let all = b"-abc";
    assert_eq!(split_nonutf8_once(all), (all.as_slice(), None));
    let mixed = [b'-', b'a', 0xFF, b'b'];
    assert_eq!(split_nonutf8_once(&mixed), (&mixed[..2], Some(&mixed[2..])));
    let none = [0xFFu8];
    assert_eq!(split_nonutf8_once(&none), (&none[..0], Some(&none[..])));
}

#[test]
fn raw_args_containers() {
    let owned: Vec<Vec<u8>> = raw(&["a", "bc"]);
    assert_eq!(RawArgs::len(&owned), 2);
    assert!(!RawArgs::is_empty(&owned));
    assert_eq!(RawArgs::get(&owned, 1), Some(b"bc".as_slice()));
    assert_eq!(RawArgs::get(&owned, 2), None);

    let borrowed: Vec<&[u8]> = vec![b"x".as_slice()];
    assert_eq!(RawArgs::get(&borrowed, 0), Some(b"x".as_slice()));
    assert_eq!(RawArgs::len(&borrowed), 1);

    let array: [&[u8]; 2] = [b"-n", b"1"];
    assert_eq!(RawArgs::len(&array), 2);
    assert!(!RawArgs::is_empty(&array));
    let mut p = Parser::new(&array);
    assert_eq!(p.next_arg(), Some(Short(b"n")));
    assert_eq!(p.next_flag_value(), Some(b"1".as_slice()));

    let empty: [&[u8]; 0] = [];
    assert!(RawArgs::is_empty(&empty));

    let slice: &[&[u8]] = &array[1..];
    assert_eq!(RawArgs::len(&slice), 1);
    let mut p = Parser::new(&slice);
    assert_eq!(p.next_arg(), Some(Value(b"1")));
}
