use sfs_rs::config::Device;
use sfs_rs::web::{community_ids, match_users, parse_u64, Error, Summary};

fn device(id: &[u8]) -> Device {
    Device {
        id: id.to_vec(),
        timeused: b"0".to_vec(),
        description: b"x".to_vec(),
        tokenid: b"0".to_vec(),
    }
}

fn summary(steamid: u64, name: &str, uri: &str) -> Summary {
    Summary {
        steamid,
        personaname: String::from(name),
        avatarfull: String::from(uri),
    }
}

#[test]
fn parse_u64_reads_decimal_digits() {
    assert_eq!(parse_u64(&b"0".to_vec()), Some(0));
    assert_eq!(parse_u64(&b"111".to_vec()), Some(111));
    assert_eq!(parse_u64(&b"18446744073709551615".to_vec()), Some(u64::MAX));
    assert_eq!(parse_u64(&b"18446744073709551616".to_vec()), None);
    assert_eq!(parse_u64(&b"".to_vec()), None);
    assert_eq!(parse_u64(&b"12a".to_vec()), None);
    assert_eq!(parse_u64(&b"-3".to_vec()), None);
}

#[test]
fn community_id_offset_applied() {
    let devices = vec![device(b"1"), device(b"111")];
    let ids = community_ids(&devices).unwrap();
    assert_eq!(ids, vec![76561197960265729, 76561197960265839]);
}

#[test]
fn invalid_id_rejected() {
    let devices = vec![device(b"1"), device(b"abc")];
    assert!(matches!(community_ids(&devices), Err(Error::InvalidID)));
}

#[test]
fn overflowing_id_rejected() {
    let devices = vec![device(b"18446744073709551615")];
    assert!(matches!(community_ids(&devices), Err(Error::InvalidID)));
}

#[test]
fn users_matched_in_id_order() {
    let ids: Vec<u64> = vec![2, 1];
    let summaries = vec![
        summary(1, "Alice", "a.png"),
        summary(2, "Bob", "b.png"),
        summary(1, "Alia", "c.png"),
        summary(3, "Carol", "d.png"),
    ];
    let users = match_users(&ids, &summaries);
    let names: Vec<&str> = users.iter().map(|u| u.personaname.as_str()).collect();
    assert_eq!(names, vec!["Bob", "Alice", "Alia"]);
    let uris: Vec<&str> = users.iter().map(|u| u.uri.as_str()).collect();
    assert_eq!(uris, vec!["b.png", "a.png", "c.png"]);
}

#[test]
fn unknown_ids_match_nothing() {
    let ids: Vec<u64> = vec![5, 6];
    let summaries = vec![summary(1, "Alice", "a.png")];
    let users = match_users(&ids, &summaries);
    assert_eq!(users.len(), 0);
}
