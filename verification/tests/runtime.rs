use eew_renderer::cache::{BeginOutcome, ImageCache};
use eew_renderer::limiter::ResponseRateLimiter;
use eew_renderer::mapstore::{demap, map_names, query_map, MapEntry, MapStore};
use eew_renderer::misc::{check_draw_signature, draw_decision, Area, Offset, Origin, SizeU, Version};
use eew_renderer::context::IntensityLevel;
use hmac::Mac;

const MS: u64 = 1_000_000;

#[test]
fn identical_fingerprints_are_paced_one_interval_apart() {
    // Two requests with the same fingerprint, the second 10 ms after the
    // first, a 200 ms minimum interval: the grants lie 200 ms apart.
    let mut limiter = ResponseRateLimiter::new(200 * MS);
    let h = vec![0xaau8; 20];
    let first = limiter.schedule(&h, 0);
    let second = limiter.schedule(&h, 10 * MS);
    assert_eq!(first, 0);
    assert_eq!(second, 200 * MS);
    assert!(second - first >= 190 * MS);
    // A third burst request queues behind the second grant.
    let third = limiter.schedule(&h, 20 * MS);
    assert_eq!(third, 400 * MS);
}

#[test]
fn distinct_fingerprints_do_not_wait_for_each_other() {
    let mut limiter = ResponseRateLimiter::new(200 * MS);
    let h1 = vec![1u8; 20];
    let h2 = vec![2u8; 20];
    assert_eq!(limiter.schedule(&h1, 0), 0);
    assert_eq!(limiter.schedule(&h2, 10 * MS), 10 * MS);
    // Scheduling one fingerprint leaves the other's grant untouched:
    // the first fingerprint still paces off its own earlier grant.
    assert_eq!(limiter.schedule(&h1, 20 * MS), 200 * MS);
    assert_eq!(limiter.schedule(&h2, 30 * MS), 210 * MS);
}

#[test]
fn lapsed_entries_grant_immediately() {
    let mut limiter = ResponseRateLimiter::new(200 * MS);
    let h = vec![3u8; 20];
    assert_eq!(limiter.schedule(&h, 0), 0);
    // After the previous grant plus the interval has passed, now wins.
    assert_eq!(limiter.schedule(&h, 300 * MS), 300 * MS);
    // After the entry's lifetime, the fingerprint is forgotten entirely.
    assert_eq!(limiter.schedule(&h, 10_000 * MS), 10_000 * MS);
}

#[test]
fn single_flight_per_fingerprint() {
    let mut cache = ImageCache::new(2);
    let fp = vec![7u8; 20];
    // The first caller renders; a second concurrent caller waits.
    assert!(matches!(cache.begin(&fp), BeginOutcome::Render));
    assert!(matches!(cache.begin(&fp), BeginOutcome::Wait));
    // A distinct fingerprint gets its own render.
    let other = vec![8u8; 20];
    assert!(matches!(cache.begin(&other), BeginOutcome::Render));
    // Completion publishes the bytes to everyone.
    cache.complete(&fp, vec![1, 2, 3]);
    match cache.begin(&fp) {
        BeginOutcome::Ready(img) => assert_eq!(img, vec![1, 2, 3]),
        _ => panic!("expected the cached image"),
    }
}

#[test]
fn cache_capacity_evicts_the_oldest() {
    let mut cache = ImageCache::new(1);
    let a = vec![1u8; 20];
    let b = vec![2u8; 20];
    assert!(matches!(cache.begin(&a), BeginOutcome::Render));
    cache.complete(&a, vec![0xaa]);
    assert!(matches!(cache.begin(&b), BeginOutcome::Render));
    cache.complete(&b, vec![0xbb]);
    assert!(matches!(cache.begin(&a), BeginOutcome::Render));
}

#[test]
fn map_store_queries() {
    let store = MapStore::new(vec![
        MapEntry {
            name: "tokyo".to_string(),
            contents: "[\"chiyoda\", \"chuo\"]".to_string(),
        },
        MapEntry {
            name: "osaka".to_string(),
            contents: "not json".to_string(),
        },
    ]);
    assert_eq!(map_names(&store), vec!["tokyo".to_string(), "osaka".to_string()]);
    assert_eq!(
        query_map(&store, &"tokyo".to_string()).unwrap(),
        "[\"chiyoda\", \"chuo\"]"
    );
    assert!(query_map(&store, &"kyoto".to_string()).is_none());
    assert_eq!(demap(&store, &"tokyo".to_string(), 1).unwrap(), "chuo");
    assert!(demap(&store, &"tokyo".to_string(), 2).is_none());
    assert!(demap(&store, &"osaka".to_string(), 0).is_none());
    assert!(demap(&store, &"kyoto".to_string(), 0).is_none());
}

#[test]
fn draw_signature_check_matches_hmac_sha256_hex() {
    let key = b"api key".to_vec();
    let content = b"{\"zoom\":3}".to_vec();
    let mut mac =
        <hmac::Hmac<sha2::Sha256> as hmac::KeyInit>::new_from_slice(&key).unwrap();
    mac.update(&content);
    let tag = mac.finalize().into_bytes();
    let mut sign = String::new();
    for byte in tag.iter() {
        sign.push_str(&format!("{:02x}", byte));
    }
    assert!(check_draw_signature(&key, &content, &sign));
    let mut wrong = sign.clone();
    wrong.pop();
    wrong.push('0');
    let changed = wrong != sign;
    assert!(!changed || !check_draw_signature(&key, &content, &wrong));
    assert!(!check_draw_signature(&key, &b"other".to_vec(), &sign));
}

#[test]
fn draw_endpoint_refuses_bad_signatures() {
    let key = b"api key".to_vec();
    let content = b"payload".to_vec();
    let (status, message) = draw_decision(&key, &content, &"feed".to_string());
    assert_eq!(status, 400);
    assert_eq!(message, "Invalid Signature");
}

#[test]
fn small_value_types_hold_their_fields() {
    let s = SizeU::from_tuple((1440, 1080));
    assert_eq!(s.x, 1440);
    assert_eq!(s.y, 1080);
    let a = Area::new(390, IntensityLevel::Seven);
    assert_eq!(a.code, 390);
    assert!(matches!(a.intensity, IntensityLevel::Seven));
    let o = Offset::new(Origin::RightDown, Origin::LeftUp, -4, 2);
    assert!(matches!(o.image_origin, Origin::RightDown));
    assert_eq!(o.x, -4);
    assert!(matches!(Version::V1, Version::V1));
}
