use bytepiece::error::Error;
use bytepiece::model::Piece;
use bytepiece::tokenizer::Tokenize;
use bytepiece::tokenizer::Tokenizer;

fn piece(bytes: &[u8], id: usize, count: usize) -> Piece {
    Piece { bytes: bytes.to_vec(), id, display: String::from_utf8_lossy(bytes).into_owned(), count }
}

fn small() -> Tokenizer {
    let pieces = vec![piece(b"ab", 3, 9), piece(b"a", 4, 3), piece(b"b", 5, 3)];
    Tokenizer::from_pieces(&pieces).unwrap()
}

fn join(tokens: &[&[u8]]) -> Vec<u8> {
    tokens.iter().flat_map(|t| t.iter().copied()).collect()
}

#[test]
fn whole_piece_beats_its_parts() {
    let tokens = small().tokenize(b"ab");
    assert_eq!(tokens, vec![&b"ab"[..]]);
}

#[test]
fn parts_beat_a_rare_whole() {
    let pieces = vec![piece(b"ab", 3, 1), piece(b"a", 4, 500), piece(b"b", 5, 499)];
    let tokenizer = Tokenizer::from_pieces(&pieces).unwrap();
    assert_eq!(tokenizer.tokenize(b"ab"), vec![&b"a"[..], &b"b"[..]]);
}

#[test]
fn tokens_cover_the_text() {
    let tokenizer = small();
    let text = b"abba\n\nxab\nba\xffb";
    let tokens = tokenizer.tokenize(text);
    assert_eq!(join(&tokens), text.to_vec());
    assert!(tokens.iter().all(|t| !t.is_empty()));
}

#[test]
fn empty_text_has_no_tokens() {
    assert!(small().tokenize(b"").is_empty());
}

#[test]
fn uncovered_bytes_become_single_tokens() {
    let tokens = small().tokenize(b"xy");
    assert_eq!(tokens, vec![&b"x"[..], &b"y"[..]]);
}

#[test]
fn tokens_do_not_cross_lines() {
    let pieces = vec![piece(b"a\nb", 3, 100), piece(b"a", 4, 1), piece(b"b", 5, 1), piece(b"\n", 6, 1)];
    let tokenizer = Tokenizer::from_pieces(&pieces).unwrap();
    assert_eq!(tokenizer.tokenize(b"a\nb"), vec![&b"a"[..], &b"\n"[..], &b"b"[..]]);
}

#[test]
fn tokenize_is_repeatable() {
    let tokenizer = small();
    let text = b"abababbbaab";
    assert_eq!(tokenizer.tokenize(text), tokenizer.tokenize(text));
    assert_eq!(small().tokenize(text), tokenizer.tokenize(text));
}

#[test]
fn encode_maps_tokens_to_ids() {
    let tokenizer = small();
    assert_eq!(tokenizer.encode(b"abb", false, false), Ok(vec![3, 5]));
    assert_eq!(tokenizer.encode(b"abb", true, false), Ok(vec![1, 3, 5]));
    assert_eq!(tokenizer.encode(b"abb", false, true), Ok(vec![3, 5, 2]));
    assert_eq!(tokenizer.encode(b"abb", true, true), Ok(vec![1, 3, 5, 2]));
    assert_eq!(tokenizer.encode(b"", true, true), Ok(vec![1, 2]));
}

#[test]
fn encode_fails_on_a_byte_outside_the_vocabulary() {
    assert_eq!(small().encode(b"abx", false, false), Err(Error::UnknownPiece));
}

#[test]
fn decode_drops_reserved_ids() {
    let tokenizer = small();
    assert_eq!(tokenizer.decode(&[1, 3, 0, 5, 2]), Ok(b"abb".to_vec()));
    assert_eq!(tokenizer.decode(&[0, 1, 2]), Ok(Vec::new()));
}

#[test]
fn decode_fails_on_an_unknown_id() {
    assert_eq!(small().decode(&[3, 77, 99]), Err(Error::UnknownId(77)));
}

#[test]
fn decode_undoes_encode() {
    let pieces = vec![piece(b"ab", 3, 9), piece(b"a", 4, 3), piece(b"b", 5, 3), piece(b"\n", 6, 2)];
    let tokenizer = Tokenizer::from_pieces(&pieces).unwrap();
    let text = b"abba\nbab\n\nab";
    let ids = tokenizer.encode(text, false, false).unwrap();
    assert_eq!(tokenizer.decode(&ids), Ok(text.to_vec()));
    let framed = tokenizer.encode(text, true, true).unwrap();
    assert_eq!(framed.first(), Some(&1));
    assert_eq!(framed.last(), Some(&2));
    assert_eq!(tokenizer.decode(&framed), Ok(text.to_vec()));
}

#[test]
fn vocab_size_counts_reserved_tokens() {
    assert_eq!(small().vocab_size(), 6);
    assert_eq!(Tokenizer::from_pieces(&vec![piece(b"a", 9, 1)]).unwrap().vocab_size(), 4);
}

#[test]
fn lookups_go_both_ways() {
    let tokenizer = small();
    assert_eq!(tokenizer.piece_to_id(b"ab"), Ok(3));
    assert_eq!(tokenizer.piece_to_id(b"b"), Ok(5));
    assert_eq!(tokenizer.id_to_piece(4), Ok(&b"a"[..]));
    assert_eq!(tokenizer.id_to_piece(0), Ok(&b"<pad>"[..]));
    assert_eq!(tokenizer.id_to_piece(1), Ok(&b"<bos>"[..]));
    assert_eq!(tokenizer.id_to_piece(2), Ok(&b"<eos>"[..]));
}

#[test]
fn unknown_lookups_fail() {
    let tokenizer = small();
    assert_eq!(tokenizer.piece_to_id(b"abc"), Err(Error::UnknownPiece));
    assert_eq!(tokenizer.piece_to_id(b""), Err(Error::UnknownPiece));
    assert_eq!(tokenizer.piece_to_id(b"<bos"), Err(Error::UnknownPiece));
    assert_eq!(tokenizer.id_to_piece(6), Err(Error::UnknownId(6)));
}

#[test]
fn batch_lookups_follow_single_ones() {
    let tokenizer = small();
    assert_eq!(tokenizer.pieces_to_ids(&[b"b", b"ab"]), Ok(vec![5, 3]));
    assert_eq!(tokenizer.pieces_to_ids(&[b"b", b"zz", b"ab"]), Err(Error::UnknownPiece));
    assert_eq!(tokenizer.ids_to_pieces(&[5, 1, 3]), Ok(vec![&b"b"[..], &b"<bos>"[..], &b"ab"[..]]));
    assert_eq!(tokenizer.ids_to_pieces(&[5, 9, 8]), Err(Error::UnknownId(9)));
}

#[test]
fn reserved_ids_are_refused() {
    for id in 0..3 {
        let pieces = vec![piece(b"a", 7, 1), piece(b"b", id, 1)];
        assert_eq!(Tokenizer::from_pieces(&pieces).err(), Some(Error::ReservedId));
    }
}

#[test]
fn shared_ids_are_refused() {
    let pieces = vec![piece(b"a", 7, 1), piece(b"b", 8, 1), piece(b"c", 7, 1)];
    assert_eq!(Tokenizer::from_pieces(&pieces).err(), Some(Error::DuplicateId));
}

#[test]
fn repeated_pieces_are_refused() {
    let pieces = vec![piece(b"a", 7, 1), piece(b"b", 8, 1), piece(b"a", 9, 1)];
    assert_eq!(Tokenizer::from_pieces(&pieces).err(), Some(Error::DuplicatePiece));
    let empties = vec![piece(b"", 7, 1), piece(b"b", 8, 1), piece(b"", 9, 1)];
    assert_eq!(Tokenizer::from_pieces(&empties).err(), Some(Error::DuplicatePiece));
}

#[test]
fn uncounted_pieces_are_never_chosen() {
    let pieces = vec![piece(b"ab", 3, 0), piece(b"a", 4, 3), piece(b"b", 5, 3)];
    let tokenizer = Tokenizer::from_pieces(&pieces).unwrap();
    assert_eq!(tokenizer.tokenize(b"ab"), vec![&b"a"[..], &b"b"[..]]);
    assert_eq!(tokenizer.piece_to_id(b"ab"), Ok(3));
}

#[test]
fn an_empty_piece_is_known_and_never_a_token() {
    let pieces = vec![piece(b"", 3, 5), piece(b"a", 4, 3)];
    let tokenizer = Tokenizer::from_pieces(&pieces).unwrap();
    assert_eq!(tokenizer.piece_to_id(b""), Ok(3));
    assert_eq!(tokenizer.tokenize(b"aa"), vec![&b"a"[..], &b"a"[..]]);
}

#[test]
fn decoded_text_must_be_utf8() {
    let pieces = vec![piece("é".as_bytes(), 3, 4), piece(b"\xc3", 4, 1), piece(b"a", 5, 2)];
    let tokenizer = Tokenizer::from_pieces(&pieces).unwrap();
    assert_eq!(tokenizer.decode_text(&[5, 3, 2]), Ok("aé".to_string()));
    assert_eq!(tokenizer.decode_text(&[]), Ok(String::new()));
    assert_eq!(tokenizer.decode(&[5, 4]), Ok(b"a\xc3".to_vec()));
    assert_eq!(tokenizer.decode_text(&[5, 4]), Err(Error::FromUtf8));
    assert_eq!(tokenizer.decode_text(&[5, 9]), Err(Error::UnknownId(9)));
}

#[test]
fn matches_are_all_occurrences_by_end() {
    let tokenizer = small();
    let spans = tokenizer.matches(b"aab");
    let mut found: Vec<(usize, usize, usize)> = spans.iter().map(|s| (s.start, s.end, s.pattern)).collect();
    assert!(found.windows(2).all(|w| w[0].1 <= w[1].1));
    found.sort();
    assert_eq!(found, vec![(0, 1, 1), (1, 2, 1), (1, 3, 0), (2, 3, 2)]);
    assert!(tokenizer.matches(b"xyz").is_empty());
}

#[test]
fn weights_come_from_counts() {
    let tokenizer = small();
    assert_eq!(tokenizer.weights(), &vec![Some(-48297), Some(-152169), Some(-152169)]);
}

#[test]
fn the_best_division_wins_on_a_longer_line() {
    let pieces = vec![
        piece(b"a", 3, 10),
        piece(b"b", 4, 10),
        piece(b"c", 5, 10),
        piece(b"ab", 6, 30),
        piece(b"bc", 7, 40),
        piece(b"abc", 8, 1),
    ];
    let tokenizer = Tokenizer::from_pieces(&pieces).unwrap();
    assert_eq!(tokenizer.tokenize(b"abc"), vec![&b"a"[..], &b"bc"[..]]);
    assert_eq!(tokenizer.tokenize(b"abcab"), vec![&b"a"[..], &b"bc"[..], &b"ab"[..]]);
    assert_eq!(tokenizer.encode(b"abcab", false, false), Ok(vec![3, 7, 6]));
}

#[test]
fn a_line_that_pieces_cannot_cover_falls_back_byte_by_byte() {
    let tokenizer = small();
    assert_eq!(tokenizer.tokenize(b"xab"), vec![&b"x"[..], &b"a"[..], &b"b"[..]]);
    assert_eq!(tokenizer.tokenize(b"abx"), vec![&b"ab"[..], &b"x"[..]]);
}

#[test]
fn a_searcher_built_by_the_caller_is_taken() {
    let pieces = vec![piece(b"ab", 3, 9), piece(b"a", 4, 3), piece(b"b", 5, 3)];
    let patterns: Vec<&[u8]> = pieces.iter().map(|p| p.bytes.as_slice()).collect();
    let searcher = aho_corasick::AhoCorasick::builder()
        .match_kind(aho_corasick::MatchKind::Standard)
        .build(&patterns);
    let tokenizer = Tokenizer::with_searcher(&pieces, searcher).unwrap();
    assert_eq!(tokenizer.tokenize(b"abb"), vec![&b"ab"[..], &b"b"[..]]);
    let reserved = vec![piece(b"ab", 1, 9)];
    let searcher = aho_corasick::AhoCorasick::builder().build(&[b"ab"]);
    assert_eq!(Tokenizer::with_searcher(&reserved, searcher).err(), Some(Error::ReservedId));
}

#[test]
fn ids_without_gaps_all_have_pieces() {
    let tokenizer = small();
    for id in 0..tokenizer.vocab_size() {
        assert!(tokenizer.id_to_piece(id).is_ok());
    }
    assert!(tokenizer.id_to_piece(tokenizer.vocab_size()).is_err());
}

#[test]
fn the_tokens_outweigh_every_other_division() {
    let pieces = vec![
        piece(b"a", 3, 10),
        piece(b"b", 4, 10),
        piece(b"c", 5, 10),
        piece(b"ab", 6, 30),
        piece(b"bc", 7, 40),
        piece(b"abc", 8, 1),
    ];
    let tokenizer = Tokenizer::from_pieces(&pieces).unwrap();
    let weights = tokenizer.weights().clone();
    let weigh = |tokens: &[&[u8]]| -> i64 {
        tokens.iter().map(|t| weights[tokenizer.piece_to_id(t).unwrap() - 3].unwrap()).sum()
    };
    let text = b"abcab";
    let best = weigh(&tokenizer.tokenize(text));
    for mask in 0u32..16 {
        let mut tokens: Vec<&[u8]> = Vec::new();
        let mut start = 0;
        for end in 1..=text.len() {
            if end == text.len() || mask & (1 << (end - 1)) != 0 {
                tokens.push(&text[start..end]);
                start = end;
            }
        }
        if tokens.iter().all(|t| tokenizer.piece_to_id(t).is_ok()) {
            assert!(weigh(&tokens) <= best);
        }
    }
}

#[test]
fn an_empty_table_gives_no_tokenizer() {
    assert_eq!(Tokenizer::from_pieces(&Vec::new()).err(), Some(Error::AhoCorasickBuild));
    let searcher = aho_corasick::AhoCorasick::builder().build(Vec::<Vec<u8>>::new());
    assert!(searcher.is_ok());
    assert_eq!(Tokenizer::with_searcher(&Vec::new(), searcher).err(), Some(Error::AhoCorasickBuild));
}

#[test]
fn reserved_pieces_are_refused() {
    for bytes in [&b"<pad>"[..], &b"<bos>"[..], &b"<eos>"[..]] {
        let pieces = vec![piece(b"a", 7, 1), piece(bytes, 8, 1)];
        assert_eq!(Tokenizer::from_pieces(&pieces).err(), Some(Error::ReservedPiece));
    }
    let near = vec![piece(b"<pad", 7, 1), piece(b"<bos>>", 8, 1)];
    assert!(Tokenizer::from_pieces(&near).is_ok());
}

#[test]
fn faults_are_looked_for_in_order() {
    let pieces = vec![piece(b"<pad>", 1, 1), piece(b"a", 1, 1), piece(b"a", 9, 1)];
    assert_eq!(Tokenizer::from_pieces(&pieces).err(), Some(Error::ReservedId));
    let pieces = vec![piece(b"<pad>", 9, 1), piece(b"a", 9, 1), piece(b"a", 8, 1)];
    assert_eq!(Tokenizer::from_pieces(&pieces).err(), Some(Error::DuplicateId));
    let pieces = vec![piece(b"<pad>", 9, 1), piece(b"a", 7, 1), piece(b"a", 8, 1)];
    assert_eq!(Tokenizer::from_pieces(&pieces).err(), Some(Error::ReservedPiece));
}

#[test]
fn reserved_pieces_lead_to_their_ids() {
    let tokenizer = small();
    assert_eq!(tokenizer.piece_to_id(b"<pad>"), Ok(0));
    assert_eq!(tokenizer.piece_to_id(b"<bos>"), Ok(1));
    assert_eq!(tokenizer.piece_to_id(b"<eos>"), Ok(2));
    assert_eq!(tokenizer.pieces_to_ids(&[b"<bos>", b"ab", b"<eos>"]), Ok(vec![1, 3, 2]));
}

#[test]
fn every_id_leads_to_one_piece_and_back() {
    let tokenizer = small();
    let mut seen: Vec<Vec<u8>> = Vec::new();
    for id in 0..tokenizer.vocab_size() {
        let found = tokenizer.id_to_piece(id).unwrap().to_vec();
        assert_eq!(tokenizer.piece_to_id(&found), Ok(id));
        assert!(!seen.contains(&found));
        seen.push(found);
    }
    for bytes in [&b"ab"[..], &b"a"[..], &b"b"[..]] {
        let id = tokenizer.piece_to_id(bytes).unwrap();
        assert_eq!(tokenizer.id_to_piece(id), Ok(bytes));
    }
}

#[test]
fn text_that_spells_a_reserved_token_comes_back() {
    let pieces = vec![
        piece(b"<", 3, 5),
        piece(b">", 4, 5),
        piece(b"b", 5, 5),
        piece(b"o", 6, 5),
        piece(b"s", 7, 5),
        piece(b"bos", 8, 9),
    ];
    let tokenizer = Tokenizer::from_pieces(&pieces).unwrap();
    let text = b"<bos>";
    let ids = tokenizer.encode(text, true, true).unwrap();
    assert_eq!(ids, vec![1, 3, 8, 4, 2]);
    assert_eq!(tokenizer.decode(&ids), Ok(text.to_vec()));
}

#[test]
fn every_token_is_a_piece_or_one_byte() {
    let tokenizer = small();
    for token in tokenizer.tokenize(b"abxxab\nbay") {
        assert!(token.len() == 1 || tokenizer.piece_to_id(token).is_ok());
    }
}
