use bytepiece::error::Error;
use bytepiece::error::ErrorKind;
use bytepiece::model::parse_pieces_from_slice;
use bytepiece::model::pieces_from_rows;
use bytepiece::tokenizer::make_owned_tokenizer;
use bytepiece::tokenizer::Tokenize;

#[test]
fn model_rows_become_pieces_in_key_order() {
    let model = br#"{"Yg==": [5, "b", 3], "YWI=": [3, "ab", 9], "YQ==": [4, "a", 2]}"#;
    let pieces = parse_pieces_from_slice(model).unwrap();
    assert_eq!(pieces.len(), 3);
    assert_eq!(pieces[0].bytes, b"a".to_vec());
    assert_eq!(pieces[0].id, 4);
    assert_eq!(pieces[0].display, "a");
    assert_eq!(pieces[0].count, 2);
    assert_eq!(pieces[1].bytes, b"ab".to_vec());
    assert_eq!(pieces[1].id, 3);
    assert_eq!(pieces[2].bytes, b"b".to_vec());
    assert_eq!(pieces[2].count, 3);
}

#[test]
fn keys_may_hold_any_bytes() {
    let model = br#"{"/w==": [3, "?", 1], "AAEC": [4, "...", 1], "": [5, "", 1]}"#;
    let pieces = parse_pieces_from_slice(model).unwrap();
    assert_eq!(pieces[0].bytes, Vec::<u8>::new());
    assert_eq!(pieces[1].bytes, vec![0xff]);
    assert_eq!(pieces[2].bytes, vec![0, 1, 2]);
}

#[test]
fn an_empty_model_has_no_pieces_and_gives_no_tokenizer() {
    let pieces = parse_pieces_from_slice(b"{}").unwrap();
    assert_eq!(pieces.len(), 0);
    assert_eq!(make_owned_tokenizer(pieces).err(), Some(Error::AhoCorasickBuild));
}

#[test]
fn an_owned_tokenizer_is_built_where_a_tokenizer_is() {
    let models: [&[u8]; 5] = [
        br#"{"Yg==": [5, "b", 3], "YQ==": [4, "a", 3]}"#,
        br#"{"Yg==": [1, "b", 3], "YQ==": [4, "a", 3]}"#,
        br#"{"Yg==": [4, "b", 3], "YQ==": [4, "a", 3]}"#,
        br#"{"PGJvcz4=": [5, "<bos>", 3], "YQ==": [4, "a", 3]}"#,
        br#"{}"#,
    ];
    for model in models {
        let pieces = parse_pieces_from_slice(model).unwrap();
        let plain = bytepiece::tokenizer::Tokenizer::from_pieces(&pieces);
        let owned = make_owned_tokenizer(pieces);
        assert_eq!(plain.as_ref().err(), owned.as_ref().err());
        if let (Ok(plain), Ok(owned)) = (plain, owned) {
            assert_eq!(plain.vocab_size(), owned.vocab_size());
            assert_eq!(plain.tokenize(b"abba"), owned.tokenize(b"abba"));
            assert_eq!(plain.piece_to_id(b"a"), owned.piece_to_id(b"a"));
            assert_eq!(plain.id_to_piece(5), owned.id_to_piece(5));
        }
    }
}

#[test]
fn broken_json_is_refused() {
    assert_eq!(parse_pieces_from_slice(b"{").err(), Some(Error::Json));
    assert_eq!(parse_pieces_from_slice(b"").err(), Some(Error::Json));
    assert_eq!(parse_pieces_from_slice(b"[1, 2]").err(), Some(Error::Json));
    assert_eq!(parse_pieces_from_slice(br#"{"YQ==": [4, "a"]}"#).err(), Some(Error::Json));
    assert_eq!(parse_pieces_from_slice(br#"{"YQ==": [-4, "a", 1]}"#).err(), Some(Error::Json));
    assert_eq!(parse_pieces_from_slice(br#"{"YQ==": ["4", "a", 1]}"#).err(), Some(Error::Json));
}

#[test]
fn keys_that_are_not_base64_are_refused() {
    assert_eq!(parse_pieces_from_slice(br#"{"Y": [4, "a", 1]}"#).err(), Some(Error::Base64));
    assert_eq!(parse_pieces_from_slice(br#"{"YQ=": [4, "a", 1]}"#).err(), Some(Error::Base64));
    assert_eq!(parse_pieces_from_slice(br#"{"Y*==": [4, "a", 1]}"#).err(), Some(Error::Base64));
    assert_eq!(
        parse_pieces_from_slice(br#"{"YQ==": [4, "a", 1], "!!!!": [5, "b", 1]}"#).err(),
        Some(Error::Base64)
    );
}

#[test]
fn rows_are_decoded_one_by_one() {
    let rows = vec![
        ("aGVsbG8=".to_string(), 7, "hello".to_string(), 11),
        ("IA==".to_string(), 8, " ".to_string(), 12),
    ];
    let pieces = pieces_from_rows(&rows).unwrap();
    assert_eq!(pieces[0].bytes, b"hello".to_vec());
    assert_eq!(pieces[0].id, 7);
    assert_eq!(pieces[0].count, 11);
    assert_eq!(pieces[1].bytes, b" ".to_vec());
    assert_eq!(pieces[1].display, " ");
    let broken = vec![("aGVsbG8".to_string(), 7, "hello".to_string(), 11)];
    assert_eq!(pieces_from_rows(&broken).err(), Some(Error::Base64));
}

#[test]
fn a_model_gives_a_working_tokenizer() {
    let model = br#"{"Yg==": [5, "b", 3], "YWI=": [3, "ab", 9], "YQ==": [4, "a", 3]}"#;
    let pieces = parse_pieces_from_slice(model).unwrap();
    let tokenizer = make_owned_tokenizer(pieces).unwrap();
    assert_eq!(tokenizer.vocab_size(), 6);
    assert_eq!(tokenizer.pieces().len(), 3);
    assert_eq!(tokenizer.tokenize(b"ab"), vec![&b"ab"[..]]);
    assert_eq!(tokenizer.encode(b"abb", true, true), Ok(vec![1, 3, 5, 2]));
    assert_eq!(tokenizer.decode(&[3, 5]), Ok(b"abb".to_vec()));
    assert_eq!(tokenizer.tokenizer().vocab_size(), 6);
}

#[test]
fn a_model_with_a_reserved_id_gives_no_tokenizer() {
    let model = br#"{"Yg==": [2, "b", 3], "YQ==": [4, "a", 3]}"#;
    let pieces = parse_pieces_from_slice(model).unwrap();
    assert_eq!(make_owned_tokenizer(pieces).err(), Some(Error::ReservedId));
    let shared = br#"{"Yg==": [4, "b", 3], "YQ==": [4, "a", 3]}"#;
    let pieces = parse_pieces_from_slice(shared).unwrap();
    assert_eq!(make_owned_tokenizer(pieces).err(), Some(Error::DuplicateId));
}

#[test]
fn errors_fall_into_classes() {
    assert_eq!(Error::Json.kind(), ErrorKind::Parse);
    assert_eq!(Error::Base64.kind(), ErrorKind::Parse);
    assert_eq!(Error::ReservedId.kind(), ErrorKind::Parse);
    assert_eq!(Error::DuplicateId.kind(), ErrorKind::Parse);
    assert_eq!(Error::DuplicatePiece.kind(), ErrorKind::Parse);
    assert_eq!(Error::ReservedPiece.kind(), ErrorKind::Parse);
    assert_eq!(Error::AhoCorasickBuild.kind(), ErrorKind::Parse);
    assert_eq!(Error::UnknownId(9).kind(), ErrorKind::Lookup);
    assert_eq!(Error::UnknownPiece.kind(), ErrorKind::Lookup);
    assert_eq!(Error::FromUtf8.kind(), ErrorKind::Encoding);
}
