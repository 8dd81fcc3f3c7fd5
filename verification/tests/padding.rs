use anytls::padding::{parse_item, PaddingFactory, PaddingItem, CHECK_MARK, DEFAULT_PADDING_SCHEME};

#[test]
fn padding_factory_rejects_missing_stop() {
    assert!(PaddingFactory::new(b"0=30-30").is_none());
}

#[test]
fn padding_factory_parses_fixed_sizes_and_check_marks() {
    let padding = PaddingFactory::new(b"stop=3\n0=30-30\n1=9-9,c,10-10").unwrap();

    assert_eq!(padding.stop(), 3);
    assert_eq!(padding.generate_record_payload_sizes(0), vec![30]);
    assert_eq!(
        padding.generate_record_payload_sizes(1),
        vec![9, CHECK_MARK, 10]
    );
}

#[test]
fn default_padding_scheme_matches_protocol_stop() {
    let padding = PaddingFactory::default_scheme();

    assert_eq!(padding.stop(), 8);
    assert_eq!(padding.generate_record_payload_sizes(0), vec![30]);
}

#[test]
fn default_scheme_is_the_constant() {
    let padding = PaddingFactory::default_scheme();
    assert_eq!(padding.raw_scheme(), DEFAULT_PADDING_SCHEME.as_bytes());
    assert_eq!(
        padding.record_items(3),
        vec![
            PaddingItem::Between { min: 9, max: 9 },
            PaddingItem::Between { min: 500, max: 1000 }
        ]
    );
    assert_eq!(padding.record_items(2).len(), 9);
    assert_eq!(padding.record_items(8), vec![]);
}

#[test]
fn scheme_is_known_by_its_md5() {
    let padding = PaddingFactory::new(b"stop=1").unwrap();
    assert_eq!(padding.md5(), "0f90ac628ea5d808d36a6522a492d7b6");
    assert_eq!(padding.md5().len(), 32);
    assert!(padding.md5().chars().all(|c| c.is_ascii_digit() || ('a'..='f').contains(&c)));
    assert_ne!(padding.md5(), PaddingFactory::new(b"stop=2").unwrap().md5());
}

#[test]
fn drawn_sizes_stay_within_their_bounds() {
    let padding = PaddingFactory::new(b"stop=2\n1=10-20,c,400-100").unwrap();
    for _ in 0..200 {
        let sizes = padding.generate_record_payload_sizes(1);
        assert_eq!(sizes.len(), 3);
        assert!((10..20).contains(&sizes[0]));
        assert_eq!(sizes[1], CHECK_MARK);
        assert!((100..400).contains(&sizes[2]));
    }
}

#[test]
fn steps_that_say_nothing_are_passed_over() {
    let padding = PaddingFactory::new(b"stop=2\n1=x,5,-3-4,0-4,c,7-7,8-y, 9-9,+6-6").unwrap();
    assert_eq!(padding.generate_record_payload_sizes(1), vec![CHECK_MARK, 7, 6]);
    assert_eq!(padding.generate_record_payload_sizes(5), vec![]);
}

#[test]
fn sizes_are_cut_to_32_bits() {
    let padding = PaddingFactory::new(b"stop=2\n1=4294967295-4294967295,2147483648-2147483648").unwrap();
    assert_eq!(padding.generate_record_payload_sizes(1), vec![-1, i32::MIN]);
}

#[test]
fn stop_has_to_be_a_number() {
    assert!(PaddingFactory::new(b"stop=").is_none());
    assert!(PaddingFactory::new(b"stop=-1").is_none());
    assert!(PaddingFactory::new(b"stop=4294967296").is_none());
    assert_eq!(PaddingFactory::new(b"stop=+4294967295").unwrap().stop(), u32::MAX);
    assert_eq!(PaddingFactory::new(b"stop=1\nstop=7").unwrap().stop(), 7);
}

#[test]
fn single_steps_are_read() {
    let read = |text: &str| parse_item(&text.chars().collect::<Vec<_>>());
    assert_eq!(read("c"), Some(PaddingItem::Check));
    assert_eq!(read("3-1"), Some(PaddingItem::Between { min: 1, max: 3 }));
    assert_eq!(read("C"), None);
    assert_eq!(read("9223372036854775808-1"), None);
}
