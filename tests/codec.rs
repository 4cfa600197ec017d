use poki_launcher::codec::DecodeError;
use poki_launcher::db::AppsDB;
use poki_launcher::entry::App;

fn sample() -> AppsDB {
    let mut db = AppsDB::with_half_life(1_600_000_000, 259200).unwrap();
    db.merge_new_entries(vec![
        App::new("Firefox".to_owned(), "firefox".to_owned(), "firefox %u".to_owned()),
        App::new("Éditeur ✓".to_owned(), "".to_owned(), "gedit".to_owned()),
    ]);
    db.apps[0].score = 123_456;
    db
}

#[test]
fn round_trip_keeps_every_field() {
    let db = sample();
    let bytes = db.to_bytes();
    let back = AppsDB::from_bytes(&bytes).unwrap();
    assert_eq!(back.reference_time(), 1_600_000_000);
    assert_eq!(back.half_life(), 259200);
    assert_eq!(back.next_id(), db.next_id());
    assert_eq!(back.apps.len(), 2);
    for (a, b) in back.apps.iter().zip(db.apps.iter()) {
        assert_eq!(a.name, b.name);
        assert_eq!(a.icon, b.icon);
        assert_eq!(a.command, b.command);
        assert_eq!(a.uuid, b.uuid);
        assert_eq!(a.score, b.score);
    }
    assert_eq!(back.to_bytes(), bytes);
}

#[test]
fn empty_catalog_encoding() {
    let db = AppsDB::with_half_life(7, 9).unwrap();
    let bytes = db.to_bytes();
    assert_eq!(bytes.len(), 48);
    assert_eq!(&bytes[0..8], &[0x50, 0x4b, 0x44, 0x42, 0, 0, 0, 0]);
    assert_eq!(&bytes[8..16], &[1, 0, 0, 0, 0, 0, 0, 0]);
    assert_eq!(&bytes[16..24], &[7, 0, 0, 0, 0, 0, 0, 0]);
}

#[test]
fn truncated_bytes_are_malformed() {
    let bytes = sample().to_bytes();
    assert_eq!(AppsDB::from_bytes(&bytes[..bytes.len() - 1]).err(), Some(DecodeError::Malformed));
    assert_eq!(AppsDB::from_bytes(&[]).err(), Some(DecodeError::Malformed));
    let mut longer = bytes.clone();
    longer.push(0);
    assert_eq!(AppsDB::from_bytes(&longer).err(), Some(DecodeError::Malformed));
}

#[test]
fn other_version_is_reported() {
    let mut bytes = sample().to_bytes();
    bytes[8] = 2;
    assert_eq!(
        AppsDB::from_bytes(&bytes).err(),
        Some(DecodeError::UnknownVersion { version: 2 })
    );
}

#[test]
fn zero_half_life_in_bytes_is_refused() {
    let mut bytes = AppsDB::with_half_life(7, 9).unwrap().to_bytes();
    bytes[24] = 0;
    assert_eq!(AppsDB::from_bytes(&bytes).err(), Some(DecodeError::InvalidHalfLife));
}

#[test]
fn duplicate_entries_in_bytes_are_refused() {
    let mut db = AppsDB::with_half_life(7, 9).unwrap();
    db.apps.push(App::new("A".to_owned(), "i".to_owned(), "a".to_owned()));
    db.apps.push(App::new("A".to_owned(), "i".to_owned(), "a".to_owned()));
    let bytes = db.to_bytes();
    assert_eq!(AppsDB::from_bytes(&bytes).err(), Some(DecodeError::DuplicateEntry));
}

#[test]
fn invalid_utf8_is_malformed() {
    let mut db = AppsDB::with_half_life(7, 9).unwrap();
    db.apps.push(App::new("A".to_owned(), "i".to_owned(), "a".to_owned()));
    let mut bytes = db.to_bytes();
    // the name's single byte follows the 48-byte header, id, score and length
    bytes[48 + 24] = 0xff;
    assert_eq!(AppsDB::from_bytes(&bytes).err(), Some(DecodeError::Malformed));
}
