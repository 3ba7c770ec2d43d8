use multi_zkvm::hexfmt::{hex32, parse_hex32, starts_with_0x, strip_0x};
use multi_zkvm::host::{
    build_candidates, build_input, disk_key, disk_pubkey, fit_32, guest_dir_for_backend,
    is_backend_name, is_signer, merkle_root_from_pubkeys, message_to_32, parse_backend,
    proof_kind_for,
    pubkeys_from_keyset, same_text, schnorr_sign, split_signature, Backend, DiskKey, KeySet,
    ProofKind,
};
use multi_zkvm::primitives::{keccak256_bytes, schnorr_k256, TinyKeccakK256};
use multi_zkvm::crypto::merkle_root;
use multi_zkvm::signers::{
    chars_of, find_comma, is_space_char, marked_slots, parse_index, parse_signer_indices,
    trim_bounds, COMMITTEE_SLOTS,
};
use multi_zkvm::types::{Byte32, HexError, HostError, PubKey, SchnorrSig};

fn counting() -> Byte32 {
    let mut b = [0u8; 32];
    for i in 0..32 {
        b[i] = (i as u8).wrapping_mul(9).wrapping_add(0xA0);
    }
    b
}

fn one() -> Byte32 {
    let mut sk = [0u8; 32];
    sk[31] = 1;
    sk
}

fn entry(sk: &str, ax: &str, ay: &str) -> DiskKey {
    DiskKey { sk_hex: sk.to_string(), ax_hex: ax.to_string(), ay_hex: ay.to_string() }
}

fn odd() -> HostError {
    HostError::InvalidHex { cause: HexError::OddLength }
}

fn bad_char(c: char, index: usize) -> HostError {
    HostError::InvalidHex { cause: HexError::InvalidHexCharacter { c, index } }
}

/// What the hex crate itself says of a text that it refuses.
fn said_by_hex(digits: &str) -> HostError {
    let cause = match hex::decode(digits).unwrap_err() {
        hex::FromHexError::InvalidHexCharacter { c, index } => {
            HexError::InvalidHexCharacter { c, index }
        }
        hex::FromHexError::OddLength => HexError::OddLength,
        hex::FromHexError::InvalidStringLength => HexError::InvalidStringLength,
    };
    HostError::InvalidHex { cause }
}

const GX: &str = "0x79be667ef9dcbbac55a06295ce870b07029bfcdb2dce28d959f2815b16f81798";
const GY: &str = "0x483ada7726a3c4655da4fbfc0e1108a8fd17b448a68554199c47d08ffb10d4b8";

#[test]
fn hex32_writes_prefix_and_lower_case_digits() {
    assert_eq!(hex32(&[0; 32]), format!("0x{}", "00".repeat(32)));
    assert_eq!(hex32(&[0xAB; 32]), format!("0x{}", "ab".repeat(32)));
    let mut b = [0u8; 32];
    b[0] = 0x01;
    b[1] = 0xF0;
    b[31] = 0x9C;
    assert_eq!(hex32(&b), format!("0x01f0{}9c", "00".repeat(29)));
}

#[test]
fn parse_hex32_reads_what_hex32_wrote() {
    let b = counting();
    assert_eq!(parse_hex32(&hex32(&b)), Ok(b));
    assert_eq!(parse_hex32(&hex32(&b)[2..]), Ok(b));
    assert_eq!(parse_hex32(&hex32(&b).to_uppercase().replace("0X", "0x")), Ok(b));
    assert_eq!(parse_hex32(GX).unwrap()[0], 0x79);
    assert_eq!(parse_hex32(GX).unwrap()[31], 0x98);
}

#[test]
fn parse_hex32_refuses_what_is_not_32_bytes_of_hex() {
    assert_eq!(parse_hex32(""), Err(HostError::WrongLength { got: 0 }));
    assert_eq!(parse_hex32("0x"), Err(HostError::WrongLength { got: 0 }));
    assert_eq!(parse_hex32("0x00"), Err(HostError::WrongLength { got: 1 }));
    assert_eq!(parse_hex32(&"ab".repeat(33)), Err(HostError::WrongLength { got: 33 }));
    assert_eq!(parse_hex32(&"ab".repeat(31)), Err(HostError::WrongLength { got: 31 }));
    assert_eq!(parse_hex32("0x0"), Err(odd()));
    assert_eq!(parse_hex32(&format!("0x{}", "0g".repeat(32))), Err(bad_char('g', 1)));
    assert_eq!(parse_hex32(&format!("0X{}", "00".repeat(32))), Err(bad_char('X', 1)));
    assert_eq!(parse_hex32(&format!("0x0x{}", "00".repeat(31))), Err(bad_char('x', 1)));
    assert_eq!(parse_hex32(&format!(" 0x{}", "00".repeat(32))), Err(odd()));
    assert_eq!(parse_hex32(&format!("  0x{}", "00".repeat(32))), Err(bad_char(' ', 0)));
    // a character of two bytes is reported by its first byte
    assert_eq!(parse_hex32(&"é".repeat(32)), Err(bad_char('\u{c3}', 0)));
    assert_eq!(parse_hex32(&format!("0x{}é", "00".repeat(31))), Err(bad_char('\u{c3}', 62)));
    // an odd number of bytes counts before a bad character does
    assert_eq!(parse_hex32("zzz"), Err(odd()));
    assert_eq!(parse_hex32("0éa"), Err(bad_char('\u{c3}', 1)));
    assert_eq!(parse_hex32("éa"), Err(odd()));
}

#[test]
fn hex_failures_are_the_hex_crate_s_own() {
    let samples = [
        "0", "zz", "0z", "z0", "00zz", "abc", "é", "éa", "aé", "0123456789abcdefg0", " 00",
        "00 ", "0x00", "\u{1F600}", "a\u{1F600}b", "\u{7ff}", "\u{800}0", "12\u{80}",
    ];
    for s in samples {
        assert_eq!(parse_hex32(&format!("0x{}", s)), Err(said_by_hex(s)), "for {:?}", s);
        assert_eq!(message_to_32(&format!("0x{}", s)), Err(said_by_hex(s)), "for {:?}", s);
    }
}

#[test]
fn prefix_is_recognised_and_stripped() {
    assert!(starts_with_0x("0x"));
    assert!(starts_with_0x("0xab"));
    assert!(!starts_with_0x("0"));
    assert!(!starts_with_0x(""));
    assert!(!starts_with_0x("0X12"));
    assert!(!starts_with_0x("x0"));
    assert_eq!(strip_0x("0xab"), "ab");
    assert_eq!(strip_0x("ab"), "ab");
    assert_eq!(strip_0x("0x"), "");
    assert_eq!(strip_0x("0x0x"), "0x");
    assert_eq!(strip_0x("0xé"), "é");
}

#[test]
fn message_of_32_bytes_is_taken_as_it_is() {
    let text = "0123456789abcdef0123456789abcdef";
    let mut expected = [0u8; 32];
    expected.copy_from_slice(text.as_bytes());
    assert_eq!(message_to_32(text), Ok(expected));
    let b = counting();
    assert_eq!(message_to_32(&hex32(&b)), Ok(b));
}

#[test]
fn message_of_another_length_is_hashed() {
    assert_eq!(message_to_32("hello"), Ok(keccak256_bytes(b"hello")));
    assert_eq!(message_to_32(""), Ok(keccak256_bytes(b"")));
    assert_eq!(message_to_32("abc").unwrap()[0], 0x4e);
    assert_eq!(message_to_32("0x"), Ok(keccak256_bytes(b"")));
    assert_eq!(message_to_32("0x616263"), Ok(keccak256_bytes(b"abc")));
    assert_eq!(message_to_32("0X616263"), Ok(keccak256_bytes(b"0X616263")));
    // thirty-two characters, but more than thirty-two bytes
    let text = "é".repeat(32);
    assert_eq!(message_to_32(&text), Ok(keccak256_bytes(text.as_bytes())));
    // sixteen characters of two bytes each
    let text = "é".repeat(16);
    let mut expected = [0u8; 32];
    expected.copy_from_slice(text.as_bytes());
    assert_eq!(message_to_32(&text), Ok(expected));
    assert_eq!(fit_32(&[1; 32]), [1; 32]);
    assert_eq!(fit_32(&[1; 31]), keccak256_bytes(&[1; 31]));
    assert_eq!(fit_32(&[1; 33]), keccak256_bytes(&[1; 33]));
}

#[test]
fn message_after_the_prefix_must_be_hex() {
    assert_eq!(message_to_32("0xzz"), Err(bad_char('z', 0)));
    assert_eq!(message_to_32("0x123"), Err(odd()));
    assert_eq!(message_to_32("0x 12"), Err(odd()));
    assert_eq!(message_to_32("0x12 3"), Err(bad_char(' ', 2)));
}

#[test]
fn backend_names() {
    assert_eq!(parse_backend("sp1"), Backend::SP1);
    assert_eq!(parse_backend("risc0"), Backend::Risc0);
    assert_eq!(parse_backend("zisk"), Backend::Zisk);
    for name in ["sp1", "risc0", "zisk"] {
        assert!(is_backend_name(name));
    }
    for name in ["pico", "SP1", "", "sp1 ", " zisk", "risc", "zisk0"] {
        assert!(!is_backend_name(name));
    }
    assert_eq!(guest_dir_for_backend(Backend::SP1), "guest-sp1");
    assert_eq!(guest_dir_for_backend(Backend::Risc0), "guest-risc0");
    assert_eq!(guest_dir_for_backend(Backend::Zisk), "guest-zisk");
    assert_eq!(proof_kind_for("pico"), ProofKind::Compressed);
    assert_eq!(proof_kind_for("zisk"), ProofKind::Compressed);
    assert_eq!(proof_kind_for("sp1"), ProofKind::Groth16);
    assert_eq!(proof_kind_for("risc0"), ProofKind::Groth16);
    assert_eq!(proof_kind_for(""), ProofKind::Groth16);
    assert!(same_text("zisk", "zisk"));
    assert!(!same_text("zisk", "zis"));
    assert!(!same_text("a", "b"));
}

#[test]
fn signer_list_is_sorted_and_without_repeats() {
    assert_eq!(parse_signer_indices("0,2"), Ok(vec![0, 2]));
    assert_eq!(parse_signer_indices("2,0"), Ok(vec![0, 2]));
    assert_eq!(parse_signer_indices("5,1,5,63,1,0"), Ok(vec![0, 1, 5, 63]));
    assert_eq!(parse_signer_indices("7"), Ok(vec![7]));
    assert_eq!(parse_signer_indices("007,+7, 7 "), Ok(vec![7]));
    assert_eq!(parse_signer_indices(" 1 ,\t2\n,\u{a0}3\u{3000}"), Ok(vec![1, 2, 3]));
    let all: Vec<usize> = (0..64).collect();
    let text: Vec<String> = all.iter().rev().map(|i| i.to_string()).collect();
    assert_eq!(parse_signer_indices(&text.join(",")), Ok(all));
}

#[test]
fn blank_signer_list_names_no_one() {
    assert_eq!(parse_signer_indices(""), Ok(vec![]));
    assert_eq!(parse_signer_indices(" "), Ok(vec![]));
    assert_eq!(parse_signer_indices(" \t\r\n\u{2003} "), Ok(vec![]));
}

#[test]
fn signer_list_refuses_what_is_no_slot() {
    let bad = |entry: usize| Err(HostError::BadIndex { entry });
    assert_eq!(parse_signer_indices(","), bad(0));
    assert_eq!(parse_signer_indices("1,"), bad(1));
    assert_eq!(parse_signer_indices(",1"), bad(0));
    assert_eq!(parse_signer_indices("1,,2"), bad(1));
    assert_eq!(parse_signer_indices("1, ,2"), bad(1));
    assert_eq!(parse_signer_indices("1,2,3,x,y"), bad(3));
    assert_eq!(parse_signer_indices("a"), bad(0));
    assert_eq!(parse_signer_indices("1a"), bad(0));
    assert_eq!(parse_signer_indices("-1"), bad(0));
    assert_eq!(parse_signer_indices("+"), bad(0));
    assert_eq!(parse_signer_indices("++1"), bad(0));
    assert_eq!(parse_signer_indices("1 2"), bad(0));
    assert_eq!(parse_signer_indices("+ 1"), bad(0));
    assert_eq!(parse_signer_indices("1.0"), bad(0));
    assert_eq!(parse_signer_indices("0x1"), bad(0));
    assert_eq!(parse_signer_indices("١"), bad(0));
    assert_eq!(parse_signer_indices("1;2"), bad(0));
    assert_eq!(parse_signer_indices("99999999999999999999999999"), bad(0));
    assert_eq!(parse_signer_indices("64"), Err(HostError::IndexOutOfRange { index: 64 }));
    assert_eq!(parse_signer_indices("0,100"), Err(HostError::IndexOutOfRange { index: 100 }));
    assert_eq!(
        parse_signer_indices("18446744073709551615"),
        Err(HostError::IndexOutOfRange { index: usize::MAX })
    );
    assert_eq!(parse_signer_indices("18446744073709551616"), bad(0));
    // the first entry that fails decides
    assert_eq!(parse_signer_indices("1,x,64"), bad(1));
    assert_eq!(parse_signer_indices("1,64,x"), Err(HostError::IndexOutOfRange { index: 64 }));
    assert_eq!(COMMITTEE_SLOTS, 64);
}

#[test]
fn signer_list_agrees_with_the_standard_parser() {
    let samples = [
        "", " ", "0", "63", "64", "1,2,3", "3,2,1", "1,1", " 5 , 6 ", "+5", "-5", "5,", ",5",
        "1,,2", "x", "1 1", "\u{1680}9\u{2028}", "\u{200b}9", "00000000000000000000000012",
        "1\u{85},2\u{2029}", "4294967296", "12,+13,013",
    ];
    for s in samples {
        let expected: Option<Vec<usize>> = if s.trim().is_empty() {
            Some(vec![])
        } else {
            let mut out = Vec::new();
            let mut ok = true;
            for part in s.split(',') {
                match part.trim().parse::<usize>() {
                    Ok(i) if i < 64 => out.push(i),
                    _ => {
                        ok = false;
                        break;
                    }
                }
            }
            out.sort_unstable();
            out.dedup();
            if ok {
                Some(out)
            } else {
                None
            }
        };
        assert_eq!(parse_signer_indices(s).ok(), expected, "for {:?}", s);
    }
}

#[test]
fn white_space_is_what_the_standard_library_says() {
    for code in 0u32..=0x10FFFF {
        if let Some(c) = char::from_u32(code) {
            assert_eq!(is_space_char(c), c.is_whitespace(), "for U+{:04X}", code);
        }
    }
}

#[test]
fn parser_pieces() {
    assert_eq!(chars_of("aé,"), vec!['a', 'é', ',']);
    let text: Vec<char> = "  ab c \t".chars().collect();
    assert_eq!(trim_bounds(&text), (2, 6));
    let blank: Vec<char> = "   ".chars().collect();
    let (a, b) = trim_bounds(&blank);
    assert_eq!(a, b);
    assert_eq!(trim_bounds(&[]), (0, 0));
    let list: Vec<char> = "12,3,,4".chars().collect();
    assert_eq!(find_comma(&list, 0), 2);
    assert_eq!(find_comma(&list, 2), 2);
    assert_eq!(find_comma(&list, 3), 4);
    assert_eq!(find_comma(&list, 5), 5);
    assert_eq!(find_comma(&list, 6), 7);
    assert_eq!(find_comma(&list, 7), 7);
    assert_eq!(parse_index(&list[0..2], 0), Ok(12));
    assert_eq!(parse_index(&list[5..5], 2), Err(HostError::BadIndex { entry: 2 }));
    let mut marks = [false; 64];
    marks[63] = true;
    marks[0] = true;
    marks[31] = true;
    assert_eq!(marked_slots(&marks), vec![0, 31, 63]);
    assert_eq!(marked_slots(&[false; 64]), Vec::<usize>::new());
}

#[test]
fn disk_key_holds_the_public_point_of_the_secret() {
    let key = disk_key(&one()).unwrap();
    assert_eq!(key.sk_hex, format!("0x{}01", "00".repeat(31)));
    assert_eq!(key.ax_hex, GX);
    assert_eq!(key.ay_hex, GY);
    assert_eq!(parse_hex32(&key.sk_hex), Ok(one()));
    assert_eq!(key.ax_hex.len(), 66);
    assert_eq!(key.ay_hex.len(), 66);
    assert!(disk_pubkey(&key).is_ok());
    // zero is no secret key, nor is a number as large as the group order
    assert_eq!(disk_key(&[0; 32]), None);
    assert_eq!(disk_key(&[0xFF; 32]), None);
}

#[test]
fn keys_are_read_in_order_and_the_first_bad_entry_decides() {
    let good = entry("0x01", GX, GY);
    let ks = KeySet { keys: vec![good.clone(), entry("", GY, GX)] };
    let keys = pubkeys_from_keyset(&ks).unwrap();
    assert_eq!(keys.len(), 2);
    assert_eq!(keys[0], PubKey { ax: parse_hex32(GX).unwrap(), ay: parse_hex32(GY).unwrap() });
    assert_eq!(keys[1], PubKey { ax: parse_hex32(GY).unwrap(), ay: parse_hex32(GX).unwrap() });
    assert_eq!(disk_pubkey(&good), Ok(keys[0]));
    assert_eq!(pubkeys_from_keyset(&KeySet { keys: vec![] }), Ok(vec![]));

    let short_x = entry("", "0x00", GY);
    let bad_y = entry("", GX, "0xzz");
    let both = entry("", "0xzz", "0x00");
    assert_eq!(disk_pubkey(&short_x), Err(HostError::WrongLength { got: 1 }));
    assert_eq!(disk_pubkey(&bad_y), Err(bad_char('z', 0)));
    assert_eq!(disk_pubkey(&both), Err(bad_char('z', 0)));
    let ks = KeySet { keys: vec![good.clone(), short_x.clone(), bad_y.clone()] };
    assert_eq!(pubkeys_from_keyset(&ks), Err(HostError::WrongLength { got: 1 }));
    let ks = KeySet { keys: vec![good.clone(), bad_y, short_x] };
    assert_eq!(pubkeys_from_keyset(&ks), Err(bad_char('z', 0)));
}

#[test]
fn signing_needs_a_usable_secret() {
    let msg = [0x42; 32];
    let key = disk_key(&one()).unwrap();
    let sig = schnorr_sign(&key.sk_hex, &msg).unwrap();
    let ax = parse_hex32(&key.ax_hex).unwrap();
    let ay = parse_hex32(&key.ay_hex).unwrap();
    assert!(schnorr_k256(&msg, &ax, &ay, &sig));
    assert!(!schnorr_k256(&[0x43; 32], &ax, &ay, &sig));
    assert_ne!(sig, SchnorrSig { rx: [0; 32], s: [0; 32] });
    assert_eq!(schnorr_sign(&hex32(&[0; 32]), &msg), Err(HostError::BadSigningKey));
    assert_eq!(schnorr_sign(&hex32(&[0xFF; 32]), &msg), Err(HostError::BadSigningKey));
    assert_eq!(schnorr_sign("0x01", &msg), Err(HostError::WrongLength { got: 1 }));
    assert_eq!(schnorr_sign("secret", &msg), Err(bad_char('s', 0)));
}

#[test]
fn membership_among_the_signers() {
    assert!(is_signer(&[0, 2, 5], 2));
    assert!(is_signer(&[5, 2, 0], 0));
    assert!(!is_signer(&[0, 2, 5], 1));
    assert!(!is_signer(&[], 0));
}

#[test]
fn candidates_follow_the_committee() {
    let msg = [0x42; 32];
    let mut keys = Vec::new();
    for i in 1..=4u8 {
        let mut sk = [0x22u8; 32];
        sk[31] = i;
        keys.push(disk_key(&sk).unwrap());
    }
    let ks = KeySet { keys };
    let cs = build_candidates(&ks, &[3, 1, 9], &msg).unwrap();
    let pks = pubkeys_from_keyset(&ks).unwrap();
    assert_eq!(cs.len(), 4);
    for i in 0..4 {
        assert_eq!(cs[i].key, pks[i]);
        let signer = i == 1 || i == 3;
        assert_eq!(cs[i].is_ignore, if signer { 0 } else { 1 });
        if signer {
            assert_eq!(cs[i].sig, schnorr_sign(&ks.keys[i].sk_hex, &msg).unwrap());
        } else {
            assert_eq!(cs[i].sig, SchnorrSig { rx: [0; 32], s: [0; 32] });
        }
    }
    let input = build_input(&ks, &[3, 1, 9], &msg).unwrap();
    assert_eq!(input.candidates, cs);
    assert_eq!(input.message, msg);
    assert_eq!(input.root, merkle_root(&TinyKeccakK256, &pks).unwrap());
    assert_eq!(merkle_root_from_pubkeys(&pks), Ok(input.root));
}

#[test]
fn building_an_input_fails_with_the_first_failure() {
    let msg = [0x42; 32];
    let good = disk_key(&one()).unwrap();
    let no_secret = entry("0xzz", GX, GY);
    let zero_secret = entry(&hex32(&[0; 32]), GX, GY);
    let bad_key = entry(&good.sk_hex, "0x00", GY);

    // a secret is only read for a signer
    let ks = KeySet { keys: vec![good.clone(), no_secret.clone()] };
    assert!(build_input(&ks, &[0], &msg).is_ok());
    assert_eq!(build_input(&ks, &[0, 1], &msg), Err(bad_char('z', 0)));
    let ks = KeySet { keys: vec![zero_secret, no_secret.clone()] };
    assert_eq!(build_candidates(&ks, &[0, 1], &msg), Err(HostError::BadSigningKey));
    assert_eq!(build_candidates(&ks, &[1], &msg), Err(bad_char('z', 0)));

    // the keys are read before the size of the committee is looked at
    let ks = KeySet { keys: vec![good.clone(), good.clone(), bad_key.clone()] };
    assert_eq!(build_input(&ks, &[], &msg), Err(HostError::WrongLength { got: 1 }));
    let ks = KeySet { keys: vec![good.clone(), good.clone(), good.clone()] };
    assert_eq!(build_input(&ks, &[], &msg), Err(HostError::InvalidCommitteeSize));
    assert_eq!(build_input(&KeySet { keys: vec![] }, &[], &msg), Err(HostError::InvalidCommitteeSize));
    assert_eq!(merkle_root_from_pubkeys(&[]), Err(HostError::InvalidCommitteeSize));

    // within one member the signature is made before the key is read
    let ks = KeySet { keys: vec![entry("0xzz", "0x00", GY)] };
    assert_eq!(build_candidates(&ks, &[0], &msg), Err(bad_char('z', 0)));
    assert_eq!(build_candidates(&ks, &[], &msg), Err(HostError::WrongLength { got: 1 }));
}

#[test]
fn signature_bytes_part_in_the_middle() {
    let mut bytes = [0u8; 64];
    for i in 0..64 {
        bytes[i] = i as u8;
    }
    let sig = split_signature(&bytes);
    assert_eq!(sig.rx[0], 0);
    assert_eq!(sig.rx[31], 31);
    assert_eq!(sig.s[0], 32);
    assert_eq!(sig.s[31], 63);
}
