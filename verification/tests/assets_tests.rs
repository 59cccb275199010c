use vaulty::assets::{asset_rel_path, decode_asset, encode_asset, fresh_asset_filename,
    plan_asset_save, AppDir, AssetError, DbPath};
use vaulty::codec::{bbox_from_json, bbox_to_json, tags_from_json, tags_to_json};
use vaulty::store::BoundingBox;

#[test]
fn decode_accepts_prefixed_and_bare_payloads() {
    assert_eq!(
        decode_asset(&"data:image/png;base64,aGk=".to_string()).unwrap(),
        b"hi"
    );
    assert_eq!(decode_asset(&"aGk=".to_string()).unwrap(), b"hi");
}

#[test]
fn decode_rejects_invalid_encoding() {
    let r = decode_asset(&"data:image/png;base64,@@@".to_string());
    assert_eq!(r, Err(AssetError::InvalidEncoding));
    assert_eq!(AssetError::InvalidEncoding.message(), "invalid asset encoding");
    assert_eq!(AssetError::NotFound.message(), "asset not found");
}

#[test]
fn encode_then_decode_restores_bytes() {
    let bytes = vec![0u8, 1, 2, 250, 255];
    let transport = encode_asset(&bytes);
    assert!(transport.starts_with("data:image/png;base64,"));
    assert_eq!(decode_asset(&transport).unwrap(), bytes);
}

#[test]
fn save_plan_names_assets_under_images() {
    let (rel, bytes) = plan_asset_save(&"data:image/png;base64,aGk=".to_string()).unwrap();
    assert_eq!(bytes, b"hi");
    assert!(rel.starts_with("images/"));
    assert!(rel.ends_with(".png"));
    assert_eq!(rel.len(), "images/".len() + 36 + ".png".len());
    let name = fresh_asset_filename();
    assert_eq!(name.len(), 40);
    assert_eq!(asset_rel_path(&name), format!("images/{}", name));
}

#[test]
fn app_dir_joins_relative_references() {
    let dir = AppDir("/data/app".to_string());
    assert_eq!(dir.join(&"images/x.png".to_string()), "/data/app/images/x.png");
    let db = DbPath("/data/app/vaulty.db".to_string());
    assert_eq!(db.0, "/data/app/vaulty.db");
}

#[test]
fn tags_json_round_trip_with_escapes() {
    let tags = vec!["calculus".to_string(), "a\"b".to_string(), "c\\d".to_string()];
    let json = tags_to_json(&tags);
    assert_eq!(json, "[\"calculus\",\"a\\\"b\",\"c\\\\d\"]");
    assert_eq!(tags_from_json(&json), Some(tags));
    assert_eq!(tags_to_json(&vec![]), "[]");
    assert_eq!(tags_from_json(&"[]".to_string()), Some(vec![]));
    assert_eq!(tags_from_json(&"not json".to_string()), None);
}

#[test]
fn bbox_json_round_trip() {
    let b = BoundingBox { y: 10, height: 20 };
    let json = bbox_to_json(&b);
    assert_eq!(json, "{\"y\":10,\"height\":20}");
    assert_eq!(bbox_from_json(&json), Some(b));
    let neg = BoundingBox { y: -3, height: 0 };
    assert_eq!(bbox_from_json(&bbox_to_json(&neg)), Some(neg));
    assert_eq!(bbox_from_json(&"{\"y\":07,\"height\":20}".to_string()), None);
    assert_eq!(bbox_from_json(&"nonsense".to_string()), None);
}

#[test]
fn bbox_json_handles_extreme_values() {
    let b = BoundingBox { y: i64::MIN, height: i64::MAX };
    let json = bbox_to_json(&b);
    assert_eq!(json, "{\"y\":-9223372036854775808,\"height\":9223372036854775807}");
    assert_eq!(bbox_from_json(&json), Some(b));
    // A non-canonical rendering of the same box is rejected.
    assert_eq!(bbox_from_json(&"{\"y\":-0,\"height\":1}".to_string()), None);
}

#[test]
fn tags_json_accepts_only_canonical_text() {
    assert_eq!(
        tags_from_json(&"[ \"a\" ]".to_string()),
        None
    );
    assert_eq!(
        tags_from_json(&"[\"a\",]".to_string()),
        None
    );
    assert_eq!(tags_from_json(&"[\"\"]".to_string()), Some(vec![String::new()]));
}
