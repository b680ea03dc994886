use spend_dag::maid::{accepted_pubkey_rows, decide_key_belongs, maid_pk_matches_address};
use spend_dag::pubkeys::{
    chars_of, is_space_char, parse_pubkey_rows, split_ranges, trim_range, PubkeyRow,
};
use spend_dag::snapshot::{
    parse_amount, parse_snapshot, MaidBalance, SnapshotError, SNAPSHOT_SUPPLY,
};

const KEY_ONE: &str = "0279be667ef9dcbbac55a06295ce870b07029bfcdb2dce28d959f2815b16f81798";
const KEY_TWO: &str = "02c6047f9441ed7d6d3045406e95c07cd85c778e4b8cef3ca7abac09b95c709ee5";
const KEY_ONE_LONG: &str = "0479be667ef9dcbbac55a06295ce870b07029bfcdb2dce28d959f2815b16f81798483ada7726a3c4655da4fbfc0e1108a8fd17b448a68554199c47d08ffb10d4b8";

fn entry(address: &str, balance: &str, reserved: &str) -> MaidBalance {
    MaidBalance {
        address: address.to_string(),
        balance: balance.to_string(),
        reserved: reserved.to_string(),
    }
}

fn row(address: &str, pk_hex: &str) -> PubkeyRow {
    PubkeyRow { address: address.to_string(), pk_hex: pk_hex.to_string() }
}

#[test]
fn amounts_are_read_in_nanos() {
    assert_eq!(parse_amount("0"), Some(0));
    assert_eq!(parse_amount("1"), Some(1_000_000_000));
    assert_eq!(parse_amount("1.5"), Some(1_500_000_000));
    assert_eq!(parse_amount("0.000000001"), Some(1));
    assert_eq!(parse_amount("1."), Some(1_000_000_000));
    assert_eq!(parse_amount("9999999999.999999999"), Some(9_999_999_999_999_999_999));
    assert_eq!(parse_amount("452552412"), Some(SNAPSHOT_SUPPLY));
    assert_eq!(parse_amount("00452552412"), Some(SNAPSHOT_SUPPLY));
    assert_eq!(parse_amount("+452552412.0"), Some(SNAPSHOT_SUPPLY));
    assert_eq!(parse_amount("12345678901"), Some(12_345_678_901_000_000_000));
    assert_eq!(parse_amount("12345678901.5"), Some(12_345_678_901_500_000_000));
    assert_eq!(parse_amount("00000000001.5"), Some(1_500_000_000));
    assert_eq!(parse_amount("0.+5"), Some(50_000_000));
}

#[test]
fn greatest_amounts_are_read_up_to_the_last_nano() {
    assert_eq!(parse_amount("18446744073"), Some(18_446_744_073_000_000_000));
    assert_eq!(parse_amount("18446744073."), Some(18_446_744_073_000_000_000));
    assert_eq!(parse_amount("18446744073.709551615"), Some(u64::MAX));
    assert_eq!(parse_amount("18446744073.7095516150000"), Some(u64::MAX));
    assert_eq!(parse_amount("+0018446744073.7"), Some(18_446_744_073_700_000_000));
    assert_eq!(parse_amount("18446744073.70955161"), Some(18_446_744_073_709_551_610));
    assert_eq!(parse_amount("18446744073.+9"), Some(18_446_744_073_090_000_000));
    assert_eq!(parse_amount("18446744072.999999999"), Some(18_446_744_072_999_999_999));
}

#[test]
fn amounts_beyond_the_greatest_are_none() {
    assert_eq!(parse_amount("18446744073.709551616"), None);
    assert_eq!(parse_amount("18446744073.71"), None);
    assert_eq!(parse_amount("18446744073.8"), None);
    assert_eq!(parse_amount("+018446744073.9000"), None);
    assert_eq!(parse_amount("18446744074"), None);
    assert_eq!(parse_amount("18446744074.1"), None);
    assert_eq!(parse_amount("99999999999999999999"), None);
}

#[test]
fn what_is_no_amount_is_none() {
    assert_eq!(parse_amount(""), None);
    assert_eq!(parse_amount("abc"), None);
    assert_eq!(parse_amount("1.0000000001"), None);
    assert_eq!(parse_amount("-1"), None);
    assert_eq!(parse_amount("1.x"), None);
    assert_eq!(parse_amount("1.2.3"), None);
    assert_eq!(parse_amount("18446744073.7x"), None);
    assert_eq!(parse_amount("18446744073.7095516159"), None);
    assert_eq!(parse_amount(" 1"), None);
}

#[test]
fn snapshot_with_the_supply_is_accepted() {
    let entries = vec![
        entry("a", "452552000", "0"),
        entry("b", "400.5", "11.5"),
        entry("a", "452552000", "0.000000000"),
    ];
    assert_eq!(
        parse_snapshot(&entries).err(),
        Some(SnapshotError::IncorrectTotal { total: 905_104_412_000_000_000 })
    );
    let padded = parse_snapshot(&vec![entry("a", "00452552412", "0")]).unwrap();
    assert_eq!(padded.len(), 1);
    assert_eq!(padded[0].nanos, SNAPSHOT_SUPPLY);
    let entries = vec![entry("a", "452552000", "0"), entry("b", "400.5", "11.5")];
    let balances = parse_snapshot(&entries).unwrap();
    assert_eq!(balances.len(), 2);
    assert_eq!(balances[0].address, "a");
    assert_eq!(balances[0].nanos, 452_552_000_000_000_000);
    assert_eq!(balances[1].address, "b");
    assert_eq!(balances[1].nanos, 412_000_000_000);
}

#[test]
fn snapshot_faults_are_told_apart() {
    assert_eq!(
        parse_snapshot(&vec![]).err(),
        Some(SnapshotError::IncorrectTotal { total: 0 })
    );
    assert_eq!(
        parse_snapshot(&vec![entry("a", "1", "0"), entry("b", "x", "y")]).err(),
        Some(SnapshotError::InvalidBalance { index: 1 })
    );
    assert_eq!(
        parse_snapshot(&vec![entry("a", "1", "y")]).err(),
        Some(SnapshotError::InvalidReserved { index: 0 })
    );
    assert_eq!(
        parse_snapshot(&vec![entry("a", "9999999999", "9999999999")]).err(),
        Some(SnapshotError::BalanceOverflow { index: 0 })
    );
    assert_eq!(
        parse_snapshot(&vec![entry("a", "9999999999", "0"), entry("b", "0", "9999999999")]).err(),
        Some(SnapshotError::TotalOverflow { index: 1 })
    );
    assert_eq!(
        parse_snapshot(&vec![entry("a", "x", "0"), entry("b", "9999999999", "9999999999")]).err(),
        Some(SnapshotError::InvalidBalance { index: 0 })
    );
}

#[test]
fn rows_are_lines_with_two_cells() {
    assert_eq!(parse_pubkey_rows("a,b"), vec![row("a", "b")]);
    assert_eq!(
        parse_pubkey_rows("  a , b \n c,d\t\nbad\nx,y,z\n\n e ,\n"),
        vec![row("a", "b"), row("c", "d"), row("e", "")]
    );
    assert_eq!(parse_pubkey_rows(""), vec![]);
    assert_eq!(parse_pubkey_rows("\n\n"), vec![]);
    assert_eq!(parse_pubkey_rows(","), vec![row("", "")]);
    assert_eq!(parse_pubkey_rows("a,b\r\nc,d\r\n"), vec![row("a", "b"), row("c", "d")]);
    assert_eq!(parse_pubkey_rows("\u{3000}ä,ö\u{a0}"), vec![row("ä", "ö")]);
}

#[test]
fn rows_agree_with_the_string_library() {
    let body = " 1abc, 02ff \nno comma\n,\n a,b,c \n\u{2003}x\u{2003},\u{85}y\n";
    let mut expected = vec![];
    for line in body.trim().split('\n') {
        let cells: Vec<&str> = line.split(',').collect();
        if cells.len() == 2 {
            expected.push(row(cells[0].trim(), cells[1].trim()));
        }
    }
    assert_eq!(parse_pubkey_rows(body), expected);
}

#[test]
fn helpers_of_the_rows() {
    let chars = chars_of("a,,b ");
    assert_eq!(chars, vec!['a', ',', ',', 'b', ' ']);
    assert_eq!(split_ranges(&chars, 0, 5, ','), vec![(0, 1), (2, 2), (3, 5)]);
    assert_eq!(split_ranges(&chars, 1, 1, ','), vec![(1, 1)]);
    assert_eq!(trim_range(&chars, 3, 5), (3, 4));
    assert_eq!(trim_range(&chars, 4, 5), (5, 5));
    for c in ['\t', '\n', '\u{b}', '\u{c}', '\r', ' ', '\u{85}', '\u{a0}', '\u{1680}', '\u{2000}',
        '\u{200a}', '\u{2028}', '\u{2029}', '\u{202f}', '\u{205f}', '\u{3000}']
    {
        assert!(is_space_char(c));
    }
    for c in ['a', '0', ',', '\u{200b}', '\u{8}', '\u{e}', '\u{feff}'] {
        assert!(!is_space_char(c));
    }
    for n in 0..0x3100u32 {
        if let Some(c) = char::from_u32(n) {
            assert_eq!(is_space_char(c), c.is_whitespace());
        }
    }
}

#[test]
fn key_belongs_to_its_address() {
    assert!(maid_pk_matches_address("1BgGZ9tcN4rm9KBzDn7KprQz87SZ26SAMH", KEY_ONE));
    assert!(maid_pk_matches_address("1EHNa6Q4Jz2uvNExL497mE43ikXhwF6kZm", KEY_ONE_LONG));
    assert!(maid_pk_matches_address("3JvL6Ymt8MVWiCNHC7oWU6nLeHNJKLZGLN", KEY_ONE));
}

#[test]
fn key_does_not_belong_to_another_address() {
    assert!(!maid_pk_matches_address("1BgGZ9tcN4rm9KBzDn7KprQz87SZ26SAMH", KEY_TWO));
    assert!(!maid_pk_matches_address("1BgGZ9tcN4rm9KBzDn7KprQz87SZ26SAMH", KEY_ONE_LONG));
    assert!(!maid_pk_matches_address("3JvL6Ymt8MVWiCNHC7oWU6nLeHNJKLZGLN", KEY_TWO));
    assert!(!maid_pk_matches_address("3JvL6Ymt8MVWiCNHC7oWU6nLeHNJKLZGLN", KEY_ONE_LONG));
}

#[test]
fn what_cannot_be_read_does_not_match() {
    assert!(!maid_pk_matches_address("not an address", KEY_ONE));
    assert!(!maid_pk_matches_address("1BgGZ9tcN4rm9KBzDn7KprQz87SZ26SAMH", "02ff"));
    assert!(!maid_pk_matches_address("1BgGZ9tcN4rm9KBzDn7KprQz87SZ26SAMH", ""));
    assert!(!maid_pk_matches_address("", ""));
    // an address of the test network
    assert!(!maid_pk_matches_address("mrCDrCybB6J1vRfbwM5hemdJz73FwDBC8r", KEY_ONE));
}

#[test]
fn belonging_is_decided_from_the_two_answers() {
    assert!(decide_key_belongs(true, None));
    assert!(decide_key_belongs(true, Some(false)));
    assert!(decide_key_belongs(false, Some(true)));
    assert!(!decide_key_belongs(false, Some(false)));
    assert!(!decide_key_belongs(false, None));
}

#[test]
fn rows_are_accepted_where_the_key_belongs() {
    let body = format!(
        "1BgGZ9tcN4rm9KBzDn7KprQz87SZ26SAMH, {KEY_ONE}\n1BgGZ9tcN4rm9KBzDn7KprQz87SZ26SAMH,{KEY_TWO}\nbad row\n 3JvL6Ymt8MVWiCNHC7oWU6nLeHNJKLZGLN ,{KEY_ONE}\nx,y\n"
    );
    assert_eq!(
        accepted_pubkey_rows(&body),
        vec![
            row("1BgGZ9tcN4rm9KBzDn7KprQz87SZ26SAMH", KEY_ONE),
            row("3JvL6Ymt8MVWiCNHC7oWU6nLeHNJKLZGLN", KEY_ONE)
        ]
    );
    assert_eq!(accepted_pubkey_rows(""), vec![]);
    assert_eq!(accepted_pubkey_rows("x,y\n,"), vec![]);
}
