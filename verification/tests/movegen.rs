use pleco::attacks::{aligned, between_bb, bishop_moves, king_moves, knight_moves, line_bb, pawn_attacks_from, queen_moves, rook_moves};
use pleco::bitboard::NO_SQ;
use pleco::board::Board;
use pleco::movegen::{Legal, MoveGen, PseudoLegal};
use pleco::piece_move::{BitMove, MoveFlag, PreMoveInfo};
use pleco::templates::{CastleType, GenTypes, Piece, Player};

/// Builds a board from the piece placement, side, castling and en-passant
/// fields of a FEN string.
fn board_from_fen(fen: &str) -> Option<Board> {
    let fields: Vec<&str> = fen.split_whitespace().collect();
    let mut white = [0u64; 6];
    let mut black = [0u64; 6];
    let mut rank: i32 = 7;
    let mut file: i32 = 0;
    for c in fields[0].chars() {
        if c == '/' {
            rank -= 1;
            file = 0;
        } else if let Some(d) = c.to_digit(10) {
            file += d as i32;
        } else {
            let idx = match c.to_ascii_lowercase() {
                'p' => 0,
                'n' => 1,
                'b' => 2,
                'r' => 3,
                'q' => 4,
                'k' => 5,
                _ => panic!("bad piece"),
            };
            let sq = (rank * 8 + file) as u64;
            if c.is_ascii_uppercase() {
                white[idx] |= 1u64 << sq;
            } else {
                black[idx] |= 1u64 << sq;
            }
            file += 1;
        }
    }
    let turn = if fields[1] == "w" { Player::White } else { Player::Black };
    let mut castling: u8 = 0;
    for c in fields[2].chars() {
        castling |= match c {
            'K' => 1,
            'Q' => 2,
            'k' => 4,
            'q' => 8,
            _ => 0,
        };
    }
    let ep = if fields[3] == "-" {
        NO_SQ
    } else {
        let b = fields[3].as_bytes();
        (b[0] - b'a') + 8 * (b[1] - b'1')
    };
    Board::new(white, black, turn, castling, ep)
}

const START: &str = "rnbqkbnr/pppppppp/8/8/8/8/PPPPPPPP/RNBQKBNR w KQkq - 0 1";
const KIWIPETE: &str = "r3k2r/p1ppqpb1/bn2pnp1/3PN3/1p2P3/2N2Q1p/PPPBBPPP/R3K2R w KQkq - 0 1";

fn legal(fen: &str) -> Vec<BitMove> {
    MoveGen::generate::<Legal>(&board_from_fen(fen).unwrap(), GenTypes::All)
}

fn mv(src: u8, dst: u8, flags: MoveFlag) -> BitMove {
    BitMove::init(PreMoveInfo { src, dst, flags })
}

#[test]
fn start_position_has_twenty_moves() {
    let board = board_from_fen(START).unwrap();
    assert_eq!(MoveGen::generate::<Legal>(&board, GenTypes::All).len(), 20);
    assert_eq!(MoveGen::generate::<PseudoLegal>(&board, GenTypes::All).len(), 20);
    assert_eq!(MoveGen::generate::<Legal>(&board, GenTypes::Captures).len(), 0);
    assert_eq!(MoveGen::generate::<Legal>(&board, GenTypes::Quiets).len(), 20);
    assert_eq!(MoveGen::generate::<Legal>(&board, GenTypes::NonEvasions).len(), 20);
}

#[test]
fn start_position_first_moves_are_pawn_pushes() {
    let moves = legal(START);
    // single pushes a2-a3 ... h2-h3 first, then double pushes
    assert_eq!(moves[0], mv(8, 16, MoveFlag::QuietMove));
    assert_eq!(moves[7], mv(15, 23, MoveFlag::QuietMove));
    assert_eq!(moves[8], mv(8, 24, MoveFlag::DoublePawnPush));
    // then the knights: b1-a3, b1-c3, g1-f3, g1-h3
    assert_eq!(moves[16], mv(1, 16, MoveFlag::QuietMove));
    assert_eq!(moves[19], mv(6, 23, MoveFlag::QuietMove));
}

#[test]
fn kiwipete_has_forty_eight_moves() {
    assert_eq!(legal(KIWIPETE).len(), 48);
}

#[test]
fn kiwipete_castles_both_ways() {
    let moves = legal(KIWIPETE);
    assert!(moves.contains(&mv(4, 7, MoveFlag::Castle { king_side: true })));
    assert!(moves.contains(&mv(4, 0, MoveFlag::Castle { king_side: false })));
}

#[test]
fn kiwipete_captures() {
    let board = board_from_fen(KIWIPETE).unwrap();
    assert_eq!(MoveGen::generate::<Legal>(&board, GenTypes::Captures).len(), 8);
    assert_eq!(MoveGen::generate::<Legal>(&board, GenTypes::Quiets).len(), 40);
}

#[test]
fn endgame_position_has_fourteen_moves() {
    assert_eq!(legal("8/2p5/3p4/KP5r/1R3p1k/8/4P1P1/8 w - - 0 1").len(), 14);
}

#[test]
fn promotion_position_has_six_moves() {
    assert_eq!(legal("r3k2r/Pppp1ppp/1b3nbN/nP6/BBP1P3/q4N2/Pp1P2PP/R2Q1RK1 w kq - 0 1").len(), 6);
}

#[test]
fn promotion_position_black_mirror_has_six_moves() {
    assert_eq!(legal("r2q1rk1/pP1p2pp/Q4n2/bbp1p3/Np6/1B3NBn/pPPP1PPP/R3K2R b KQ - 0 1").len(), 6);
}

#[test]
fn middlegame_position_has_forty_four_moves() {
    assert_eq!(legal("rnbq1k1r/pp1Pbppp/2p5/8/2B5/8/PPP1NnPP/RNBQK2R w KQ - 1 8").len(), 44);
}

#[test]
fn symmetric_position_has_forty_six_moves() {
    assert_eq!(legal("r4rk1/1pp1qppp/p1np1n2/2b1p1B1/2B1P1b1/P1NP1N2/1PP1QPPP/R4RK1 w - - 0 10").len(), 46);
}

#[test]
fn en_passant_is_generated() {
    let fen = "4k3/8/8/3pP3/8/8/8/4K3 w - d6 0 1";
    let moves = legal(fen);
    assert!(moves.contains(&mv(36, 43, MoveFlag::Capture { ep_capture: true })));
    let board = board_from_fen(fen).unwrap();
    let caps = MoveGen::generate::<Legal>(&board, GenTypes::Captures);
    assert_eq!(caps, vec![mv(36, 43, MoveFlag::Capture { ep_capture: true })]);
}

#[test]
fn pinned_en_passant_is_not_legal() {
    // taking en passant would expose the king on the fifth rank to the rook
    let fen = "8/8/8/K2pP2r/8/8/8/7k w - d6 0 1";
    let board = board_from_fen(fen).unwrap();
    let ep = mv(36, 43, MoveFlag::Capture { ep_capture: true });
    assert!(MoveGen::generate::<PseudoLegal>(&board, GenTypes::All).contains(&ep));
    assert!(!MoveGen::generate::<Legal>(&board, GenTypes::All).contains(&ep));
    assert!(!board.legal_move(ep));
}

#[test]
fn evasions_in_check() {
    // the white king on e1 is checked by the rook on e8
    let fen = "4r1k1/8/8/8/8/8/3P1P2/R3K3 w Q - 0 1";
    let board = board_from_fen(fen).unwrap();
    assert!(board.in_check());
    let all = MoveGen::generate::<Legal>(&board, GenTypes::All);
    let evasions = MoveGen::generate::<Legal>(&board, GenTypes::Evasions);
    assert_eq!(all, evasions);
    // d1, f1 for the king; the rook on a1 cannot block on e1; no castling
    assert_eq!(all.len(), 2);
    assert!(!all.contains(&mv(4, 0, MoveFlag::Castle { king_side: false })));
}

#[test]
fn double_check_allows_only_king_moves() {
    // rook on e8 and bishop on b4 both check the king on e1
    let fen = "4r1k1/8/8/8/1b6/8/8/4K2R w K - 0 1";
    let board = board_from_fen(fen).unwrap();
    let moves = MoveGen::generate::<Legal>(&board, GenTypes::All);
    for m in moves.iter() {
        assert_eq!(m.get_src(), 4);
    }
    assert_eq!(moves.len(), 3);
}

#[test]
fn legal_moves_are_the_legal_pseudo_legal_moves() {
    for fen in [START, KIWIPETE, "8/8/8/K2pP2r/8/8/8/7k w - d6 0 1", "r3k2r/Pppp1ppp/1b3nbN/nP6/BBP1P3/q4N2/Pp1P2PP/R2Q1RK1 w kq - 0 1"] {
        let board = board_from_fen(fen).unwrap();
        let pseudo = MoveGen::generate::<PseudoLegal>(&board, GenTypes::All);
        let filtered: Vec<BitMove> = pseudo.iter().copied().filter(|m| board.legal_move(*m)).collect();
        assert_eq!(MoveGen::generate::<Legal>(&board, GenTypes::All), filtered);
    }
}

#[test]
fn quiet_checks_give_check() {
    // the rook on a1 checks only by going to a8
    let fen = "6k1/8/8/8/8/8/8/R5K1 w - - 0 1";
    let board = board_from_fen(fen).unwrap();
    let checks = MoveGen::generate::<PseudoLegal>(&board, GenTypes::QuietChecks);
    assert_eq!(checks, vec![mv(0, 56, MoveFlag::QuietMove)]);
}

#[test]
fn legal_moves_never_uncover_the_king() {
    // the bishop on e2 shields the king from the rook on e8: it may not move
    let fen = "4r1k1/8/8/8/8/8/4B3/4K3 w - - 0 1";
    let board = board_from_fen(fen).unwrap();
    let moves = MoveGen::generate::<Legal>(&board, GenTypes::All);
    assert!(moves.iter().all(|m| m.get_src() != 12));
    assert_eq!(moves.len(), 4);
    // a rook pinned along its file may still move along it
    let fen = "4r1k1/8/8/8/8/8/4R3/4K3 w - - 0 1";
    let board = board_from_fen(fen).unwrap();
    let moves = MoveGen::generate::<Legal>(&board, GenTypes::All);
    let rook_moves: Vec<&BitMove> = moves.iter().filter(|m| m.get_src() == 12).collect();
    assert_eq!(rook_moves.len(), 6);
    assert!(rook_moves.iter().all(|m| m.get_dest() % 8 == 4));
}

#[test]
fn generated_moves_are_distinct() {
    let kinds = [GenTypes::All, GenTypes::Captures, GenTypes::Quiets, GenTypes::QuietChecks, GenTypes::NonEvasions];
    for fen in [START, KIWIPETE, "r3k2r/Pppp1ppp/1b3nbN/nP6/BBP1P3/q4N2/Pp1P2PP/R2Q1RK1 w kq - 0 1"] {
        let board = board_from_fen(fen).unwrap();
        for gen in kinds {
            let moves = MoveGen::generate::<PseudoLegal>(&board, gen);
            for i in 0..moves.len() {
                for j in 0..i {
                    assert_ne!(moves[i], moves[j]);
                }
            }
        }
    }
}

#[test]
fn quiet_checks_uncover_checks_once() {
    // the knight on d4 blocks the bishop's diagonal to the king on h8: each of
    // its eight moves uncovers check, and nothing else checks
    let fen = "K6k/8/8/8/3N4/8/8/B7 w - - 0 1";
    let board = board_from_fen(fen).unwrap();
    let checks = MoveGen::generate::<PseudoLegal>(&board, GenTypes::QuietChecks);
    assert_eq!(checks.len(), 8);
    for m in checks.iter() {
        assert_eq!(m.get_src(), 27);
    }
    for i in 0..checks.len() {
        for j in 0..i {
            assert_ne!(checks[i], checks[j]);
        }
    }
}

#[test]
fn quiet_checks_skip_non_checking_moves() {
    // a quiet knight move that does not check is not a quiet check; a pawn
    // push onto a square that attacks the king is
    let fen = "4k3/8/8/8/8/3P4/8/N3K3 w - - 0 1";
    let board = board_from_fen(fen).unwrap();
    let checks = MoveGen::generate::<PseudoLegal>(&board, GenTypes::QuietChecks);
    assert!(checks.is_empty());
    let fen = "4k3/8/3P4/8/8/8/8/4K3 w - - 0 1";
    let board = board_from_fen(fen).unwrap();
    let checks = MoveGen::generate::<PseudoLegal>(&board, GenTypes::QuietChecks);
    assert_eq!(checks, vec![mv(43, 51, MoveFlag::QuietMove)]);
}

#[test]
fn quiet_checks_include_checking_castles() {
    // castling short puts the rook on f1, checking the king on f8; the rook's
    // own checks from h1 come first
    let fen = "5k2/8/8/8/8/8/8/4K2R w K - 0 1";
    let board = board_from_fen(fen).unwrap();
    let checks = MoveGen::generate::<Legal>(&board, GenTypes::QuietChecks);
    assert_eq!(checks, vec![
        mv(7, 5, MoveFlag::QuietMove),
        mv(7, 63, MoveFlag::QuietMove),
        mv(4, 7, MoveFlag::Castle { king_side: true }),
    ]);
    // with the king on g8 the castled rook does not check
    let fen = "6k1/8/8/8/8/8/8/4K2R w K - 0 1";
    let board = board_from_fen(fen).unwrap();
    let checks = MoveGen::generate::<Legal>(&board, GenTypes::QuietChecks);
    assert!(checks.iter().all(|m| !m.is_castle()));
}

#[test]
fn quiet_checks_include_checking_promotions() {
    // a8=Q and a8=R check the king on h8 along the last rank; a8=N and a8=B
    // do not
    let fen = "7k/P7/8/8/8/8/8/K7 w - - 0 1";
    let board = board_from_fen(fen).unwrap();
    let checks = MoveGen::generate::<PseudoLegal>(&board, GenTypes::QuietChecks);
    assert_eq!(checks, vec![
        mv(48, 56, MoveFlag::Promotion { capture: false, prom: Piece::Q }),
        mv(48, 56, MoveFlag::Promotion { capture: false, prom: Piece::R }),
    ]);
    // a knight on a8 checks a king on b6
    let fen = "8/P7/1k6/8/8/8/8/K7 w - - 0 1";
    let board = board_from_fen(fen).unwrap();
    let checks = MoveGen::generate::<PseudoLegal>(&board, GenTypes::QuietChecks);
    assert_eq!(checks, vec![mv(48, 56, MoveFlag::Promotion { capture: false, prom: Piece::N })]);
}

#[test]
fn generation_misses_no_piece_step_or_pawn_move() {
    // every step of a knight, bishop, rook, queen or king onto a square not
    // our own, and every single, double and capturing pawn move, is generated
    for fen in [START, KIWIPETE, "r3k2r/Pppp1ppp/1b3nbN/nP6/BBP1P3/q4N2/Pp1P2PP/R2Q1RK1 w kq - 0 1",
        "rnbqkbnr/ppp1p1pp/8/3pPp2/8/8/PPPP1PPP/RNBQKBNR w KQkq f6 0 3"] {
        let board = board_from_fen(fen).unwrap();
        let us = board.turn();
        let them = if us == Player::White { Player::Black } else { Player::White };
        let occ = board.get_occupied();
        let us_occ = board.get_occupied_player(us);
        let them_occ = board.get_occupied_player(them);
        let moves = MoveGen::generate::<PseudoLegal>(&board, GenTypes::NonEvasions);
        let step = |src: u8, dst: u8| {
            if them_occ & (1u64 << dst) != 0 {
                mv(src, dst, MoveFlag::Capture { ep_capture: false })
            } else {
                mv(src, dst, MoveFlag::QuietMove)
            }
        };
        for sq in 0u8..64 {
            let attacks = match board.piece_at_sq(sq) {
                Some(Piece::N) => knight_moves(sq),
                Some(Piece::B) => bishop_moves(occ, sq),
                Some(Piece::R) => rook_moves(occ, sq),
                Some(Piece::Q) => queen_moves(occ, sq),
                Some(Piece::K) => king_moves(sq),
                _ => 0,
            };
            if us_occ & (1u64 << sq) == 0 {
                continue;
            }
            for dst in 0u8..64 {
                if attacks & (1u64 << dst) != 0 && us_occ & (1u64 << dst) == 0 {
                    assert!(moves.contains(&step(sq, dst)));
                }
            }
            if board.piece_at_sq(sq) == Some(Piece::P) {
                let up: i32 = if us == Player::White { 8 } else { -8 };
                let one = (sq as i32 + up) as u8;
                let last = if us == Player::White { one >= 56 } else { one < 8 };
                let start = if us == Player::White { sq / 8 == 1 } else { sq / 8 == 6 };
                if occ & (1u64 << one) == 0 {
                    if last {
                        assert!(moves.contains(&mv(sq, one, MoveFlag::Promotion { capture: false, prom: Piece::N })));
                    } else {
                        assert!(moves.contains(&mv(sq, one, MoveFlag::QuietMove)));
                    }
                    let two = (sq as i32 + 2 * up) as u8;
                    if start && occ & (1u64 << two) == 0 {
                        assert!(moves.contains(&mv(sq, two, MoveFlag::DoublePawnPush)));
                    }
                }
                let caps = pawn_attacks_from(sq, us);
                for dst in 0u8..64 {
                    if caps & (1u64 << dst) != 0 && them_occ & (1u64 << dst) != 0 {
                        if last {
                            assert!(moves.contains(&mv(sq, dst, MoveFlag::Promotion { capture: true, prom: Piece::Q })));
                        } else {
                            assert!(moves.contains(&mv(sq, dst, MoveFlag::Capture { ep_capture: false })));
                        }
                    }
                    if caps & (1u64 << dst) != 0 && dst == board.ep_square() {
                        assert!(moves.contains(&mv(sq, dst, MoveFlag::Capture { ep_capture: true })));
                    }
                }
            }
        }
    }
}

#[test]
fn evasions_miss_no_safe_king_step() {
    // in check, every king step after which no enemy piece attacks the king
    // is generated, and no other king step is
    for fen in ["4k3/8/8/8/8/8/4r3/4K3 w - - 0 1", "4k3/8/8/1b6/8/8/8/4K2r w - - 0 1",
        "4k3/8/8/8/8/5n2/8/4K2r w - - 0 1", "8/8/8/2k5/3P4/8/8/4K3 b - - 0 1"] {
        let board = board_from_fen(fen).unwrap();
        let us = board.turn();
        let them = if us == Player::White { Player::Black } else { Player::White };
        assert!(board.in_check());
        let kinds = [Piece::P, Piece::N, Piece::B, Piece::R, Piece::Q, Piece::K];
        let ksq = board.king_sq(us);
        let legal = MoveGen::generate::<Legal>(&board, GenTypes::All);
        let steps = king_moves(ksq) & !board.get_occupied_player(us);
        for dst in 0u8..64 {
            if steps & (1u64 << dst) == 0 {
                continue;
            }
            let mut ours = [0u64; 6];
            let mut theirs = [0u64; 6];
            for (i, p) in kinds.iter().enumerate() {
                ours[i] = board.piece_bb(us, *p);
                theirs[i] = board.piece_bb(them, *p) & !(1u64 << dst);
            }
            ours[5] = 1u64 << dst;
            let (white, black) = if us == Player::White { (ours, theirs) } else { (theirs, ours) };
            let after = Board::new(white, black, us, 0, NO_SQ).unwrap();
            let safe = after.attackers_to(dst, after.get_occupied()) & after.get_occupied_player(them) == 0;
            let capture = board.get_occupied_player(them) & (1u64 << dst) != 0;
            let m = mv(ksq, dst, if capture { MoveFlag::Capture { ep_capture: false } } else { MoveFlag::QuietMove });
            assert_eq!(legal.contains(&m), safe);
        }
    }
}

#[test]
fn evasions_block_and_take_the_checker() {
    // the knight blocks on e2 or e4, the bishop on e4
    let moves = legal("4r1k1/8/8/8/8/2N5/8/1B2K3 w - - 0 1");
    assert!(moves.contains(&mv(18, 12, MoveFlag::QuietMove)));
    assert!(moves.contains(&mv(18, 28, MoveFlag::QuietMove)));
    assert!(moves.contains(&mv(1, 28, MoveFlag::QuietMove)));
    // a pawn takes the pawn giving check
    let moves = legal("7k/8/8/8/8/3p4/2P1K3/8 w - - 0 1");
    assert!(moves.contains(&mv(10, 19, MoveFlag::Capture { ep_capture: false })));
    // en passant takes the pawn that gives check
    let moves = legal("7k/8/8/3pP3/4K3/8/8/8 w - d6 0 1");
    assert!(moves.contains(&mv(36, 43, MoveFlag::Capture { ep_capture: true })));
}

#[test]
fn double_check_leaves_only_king_moves() {
    // knight f3 and rook h1 both check: taking the rook does not help
    let moves = legal("4k3/8/8/8/8/5n2/7R/4K2r w - - 0 1");
    assert!(!moves.contains(&mv(15, 7, MoveFlag::Capture { ep_capture: false })));
    assert!(!moves.is_empty());
    assert!(moves.iter().all(|m| m.get_src() == 4));
}

#[test]
fn board_rejects_unsound_positions() {
    let mut white = [0u64; 6];
    let mut black = [0u64; 6];
    white[5] = 1 << 4;
    black[5] = 1 << 60;
    assert!(Board::new(white, black, Player::White, 0, NO_SQ).is_some());
    // two white kings
    let mut w2 = white;
    w2[5] |= 1 << 5;
    assert!(Board::new(w2, black, Player::White, 0, NO_SQ).is_none());
    // a pawn on the first rank
    let mut w3 = white;
    w3[0] = 1 << 1;
    assert!(Board::new(w3, black, Player::White, 0, NO_SQ).is_none());
    // two pieces on one square
    let mut w4 = white;
    w4[1] = 1 << 60;
    assert!(Board::new(w4, black, Player::White, 0, NO_SQ).is_none());
    // en passant square on the wrong rank
    assert!(Board::new(white, black, Player::White, 0, 20).is_none());
    // en passant square with no pawn behind it, then with one
    assert!(Board::new(white, black, Player::White, 0, 44).is_none());
    let mut b2 = black;
    b2[0] = 1 << 36;
    assert!(Board::new(white, b2, Player::White, 0, 44).is_some());
    // castling right without the king at home
    let mut w5 = white;
    w5[5] = 1 << 3;
    assert!(Board::new(w5, black, Player::White, 1, NO_SQ).is_none());
    // no king
    assert!(Board::new([0; 6], black, Player::White, 0, NO_SQ).is_none());
}

#[test]
fn board_queries() {
    let board = board_from_fen(KIWIPETE).unwrap();
    assert_eq!(board.turn(), Player::White);
    assert_eq!(board.king_sq(Player::White), 4);
    assert_eq!(board.king_sq(Player::Black), 60);
    assert_eq!(board.piece_at_sq(0), Some(Piece::R));
    assert_eq!(board.piece_at_sq(35), Some(Piece::P));
    assert_eq!(board.piece_at_sq(27), None);
    assert!(board.can_castle(Player::Black, CastleType::QueenSide));
    assert!(!board.castle_impeded(CastleType::KingSide));
    assert_eq!(board.castling_rook_square(CastleType::KingSide), 7);
    assert!(!board.in_check());
    assert_eq!(board.ep_square(), NO_SQ);
    assert_eq!(board.get_occupied().count_ones(), 32);
}

#[test]
fn pinned_pieces_and_discoveries() {
    // the white knight on e4 is pinned by the rook on e8; the white bishop on
    // d2 shields the black king on a5 from the white queen on e1? no: from the
    // rook on a1 along the a-file through a3
    let fen = "4r3/8/8/k7/4N3/B7/8/R3K3 w - - 0 1";
    let board = board_from_fen(fen).unwrap();
    assert_eq!(board.pinned_pieces(Player::White), 1 << 28);
    assert_eq!(board.discovered_check_candidates(), 1 << 16);
}

#[test]
fn attack_tables() {
    assert_eq!(knight_moves(0), (1 << 10) | (1 << 17));
    assert_eq!(king_moves(0), (1 << 1) | (1 << 8) | (1 << 9));
    assert_eq!(rook_moves(0, 0), 0x0101_0101_0101_01FE);
    assert_eq!(bishop_moves(0, 0), 0x8040_2010_0804_0200);
    assert_eq!(queen_moves(0, 0), 0x0101_0101_0101_01FE | 0x8040_2010_0804_0200);
    // a blocker on c3 stops the diagonal there
    assert_eq!(bishop_moves(1 << 18, 0), (1 << 9) | (1 << 18));
    assert_eq!(pawn_attacks_from(12, Player::White), (1 << 19) | (1 << 21));
    assert_eq!(pawn_attacks_from(12, Player::Black), (1 << 3) | (1 << 5));
    assert_eq!(between_bb(0, 63), 0x0040_2010_0804_0200);
    assert_eq!(between_bb(0, 10), 0);
    assert_eq!(line_bb(0, 9), 0x8040_2010_0804_0201);
    assert!(aligned(0, 9, 63));
    assert!(!aligned(0, 9, 62));
}

#[test]
fn move_encoding() {
    let m = mv(12, 28, MoveFlag::DoublePawnPush);
    assert_eq!(m.get_src(), 12);
    assert_eq!(m.get_dest(), 28);
    assert_eq!(m.get_raw(), (1 << 12) | (28 << 6) | 12);
    let p = mv(52, 60, MoveFlag::Promotion { capture: true, prom: Piece::Q });
    assert_eq!(p.get_raw() >> 12, 15);
    assert!(mv(4, 7, MoveFlag::Castle { king_side: true }).is_castle());
    assert!(mv(36, 43, MoveFlag::Capture { ep_capture: true }).is_en_passant());
    assert!(BitMove::null().is_null());
}
