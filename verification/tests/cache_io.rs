use openrscad::base64::base64_decode;
use openrscad::blob::{CacheEnvelope, CacheImportError};
use openrscad::cache::GeomCache;
use openrscad::hash::StableHasher;
use openrscad::mesh::{Mesh, Point3, Triangle};

/// A tree of cached nodes, by their keys.
struct Tree {
    key: u64,
    children: Vec<Tree>,
}

const CUBE: u64 = 1;
const CYLINDER: u64 = 2;

fn leaf(key: u64) -> Tree {
    Tree { key, children: Vec::new() }
}

fn root(r: u64) -> u64 {
    1_000 + r
}

/// A cube and a moved cylinder, joined, without a ball of radius `r`.
fn model(r: u64) -> Tree {
    let moved = Tree { key: 3, children: vec![leaf(CYLINDER)] };
    let joined = Tree { key: 4, children: vec![leaf(CUBE), moved] };
    Tree { key: root(r), children: vec![joined, leaf(100 + r)] }
}

fn mesh(key: u64) -> Mesh {
    let p = |n: u64| Point3 { x: key, y: n, z: key ^ n };
    Mesh {
        verts: (0..key % 7 + 3).map(p).collect(),
        tris: vec![Triangle { a: 0, b: 1, c: 2 }],
    }
}

fn render_cached(tree: &Tree, cache: &mut GeomCache) -> String {
    if !cache.mark_used(tree.key) {
        for child in &tree.children {
            render_cached(child, cache);
        }
        cache.insert(tree.key, mesh(tree.key), vec![format!("w{}", tree.key)], Vec::new());
    }
    format!("{:?}", cache.get(tree.key).unwrap().mesh)
}

fn envelope() -> CacheEnvelope {
    CacheEnvelope { engine_version: "test".to_string(), kernel_id: "manifold-rust".to_string() }
}

fn imported(blob: &[u8]) -> usize {
    GeomCache::new().import_bytes(blob, &envelope()).unwrap().imported
}

#[test]
fn export_import_round_trip_is_exact_and_hits() {
    let mut warm = GeomCache::new();
    let cold = render_cached(&model(8), &mut warm);
    let blob = warm.export_since(0, &envelope());

    let mut fresh = GeomCache::new();
    let report = fresh.import_bytes(&blob, &envelope()).unwrap();
    assert_eq!(report.imported, warm.len());
    assert_eq!(report.skipped, 0);
    assert_eq!(fresh.keys(), warm.keys());
    assert_eq!(fresh.stats().bytes, warm.stats().bytes);

    let before = fresh.len();
    let rehydrated = render_cached(&model(8), &mut fresh);
    assert_eq!(fresh.len(), before, "rehydrated render must be all hits");
    assert_eq!(rehydrated, cold, "rehydrated mesh must be bit-identical");

    render_cached(&model(7), &mut fresh);
    assert_eq!(fresh.len(), before + 2);

    let epoch = fresh.stats().epoch;
    let delta = fresh.export_since(epoch, &envelope());
    assert_eq!(imported(&delta), 2);
    let epoch = fresh.stats().epoch;
    let empty = fresh.export_since(epoch, &envelope());
    assert_eq!(imported(&empty), 0);
    let full = fresh.export_since(0, &envelope());
    assert_eq!(imported(&full), fresh.len());

    let again = fresh.import_bytes(&blob, &envelope()).unwrap();
    assert_eq!(again.imported, 0);
    assert_eq!(again.skipped, warm.len());
}

#[test]
fn import_refuses_foreign_envelopes_and_garbage() {
    let mut cache = GeomCache::new();
    render_cached(&model(8), &mut cache);
    let blob = cache.export_since(0, &envelope());
    let mut other = GeomCache::new();
    let foreign = CacheEnvelope { engine_version: "other".to_string(), ..envelope() };
    assert!(matches!(
        other.import_bytes(&blob, &foreign),
        Err(CacheImportError::Envelope { field: "engine version", .. })
    ));
    assert!(matches!(other.import_bytes(b"nope", &envelope()), Err(CacheImportError::BadMagic)));
    assert!(matches!(
        other.import_bytes(&blob[..blob.len() / 2], &envelope()),
        Err(CacheImportError::Truncated)
    ));
    assert!(other.is_empty());
}

#[test]
fn foreign_kernels_and_formats_are_refused() {
    let mut cache = GeomCache::new();
    render_cached(&model(8), &mut cache);
    let blob = cache.export_since(0, &envelope());
    let mut other = GeomCache::new();
    let foreign = CacheEnvelope { kernel_id: "another".to_string(), ..envelope() };
    match other.import_bytes(&blob, &foreign) {
        Err(CacheImportError::Envelope { blob, engine, .. }) => {
            assert_eq!(blob, "manifold-rust");
            assert_eq!(engine, "another");
        }
        r => panic!("unexpected: {r:?}"),
    }
    let at = blob.windows(4).position(|w| w == [1, 0, 0, 0]).unwrap();
    let mut newer = blob.clone();
    newer[at] = 2;
    assert!(matches!(
        other.import_bytes(&newer, &envelope()),
        Err(CacheImportError::Format(2))
    ));
    assert!(other.is_empty());
}

#[test]
fn texts_that_are_not_utf8_are_repaired() {
    let mut cache = GeomCache::new();
    cache.insert(5, mesh(5), vec!["marker".to_string()], Vec::new());
    let mut blob = cache.export_since(0, &envelope());
    let at = blob.windows(6).position(|w| w == b"marker").unwrap();
    blob[at] = 0xff;
    let mut other = GeomCache::new();
    assert_eq!(other.import_bytes(&blob, &envelope()).unwrap().imported, 1);
    assert_eq!(other.get(5).unwrap().warnings, vec!["\u{fffd}arker".to_string()]);
}

#[test]
fn import_preserves_recency_order() {
    let mut warm = GeomCache::new();
    render_cached(&model(8), &mut warm);
    render_cached(&model(7), &mut warm);
    let n = warm.len();
    let blob = warm.export_since(0, &envelope());
    let mut fresh = GeomCache::new();
    assert_eq!(fresh.import_bytes(&blob, &envelope()).unwrap().imported, n);

    warm.trim_to(n - 2, usize::MAX);
    fresh.trim_to(n - 2, usize::MAX);
    assert_eq!(fresh.keys(), warm.keys(), "importer must evict what the exporter evicts");

    assert!(fresh.get(CUBE).is_none() && fresh.get(CYLINDER).is_none());
    for key in [root(8), root(7)] {
        assert!(fresh.get(key).is_some(), "roots are the most valuable entries");
    }
}

#[test]
fn trim_evicts_least_recently_used() {
    let mut cache = GeomCache::new();
    render_cached(&model(8), &mut cache);
    let n = cache.len();
    render_cached(&model(8), &mut cache);
    render_cached(&model(7), &mut cache);
    let bytes = cache.stats().bytes;
    cache.trim_to(n, usize::MAX);
    assert_eq!(cache.len(), n);
    assert!(cache.stats().bytes < bytes);
    cache.trim_to(usize::MAX, 1);
    assert!(cache.is_empty());
    assert_eq!(cache.stats().bytes, 0);
}

#[test]
fn payload_counts_vertices_and_triangles() {
    let mut cache = GeomCache::new();
    cache.insert(7, mesh(7), Vec::new(), Vec::new());
    assert_eq!(cache.stats().bytes, 3 * 24 + 12);
    assert_eq!(cache.stats().entries, 1);
    cache.clear();
    assert_eq!(cache.stats().bytes, 0);
    assert!(cache.is_empty());
}

#[test]
fn integers_are_hashed_in_little_endian() {
    let digest = |write: fn(&mut StableHasher)| {
        let mut h = StableHasher::new();
        write(&mut h);
        h.finish()
    };
    assert_eq!(digest(|h| h.write_u32(0x0102_0304)), digest(|h| h.write(&[4, 3, 2, 1])));
    assert_eq!(digest(|h| h.write_usize(5)), digest(|h| h.write_u64(5)));
    assert_eq!(digest(|h| h.write_i16(-2)), digest(|h| h.write(&[0xfe, 0xff])));
    assert_ne!(digest(|h| h.write_u8(1)), digest(|h| h.write_u8(2)));
}

fn b64_encode(bytes: &[u8]) -> String {
    let letters = b"ABCDEFGHIJKLMNOPQRSTUVWXYZabcdefghijklmnopqrstuvwxyz0123456789+/";
    let mut out = String::new();
    for group in bytes.chunks(3) {
        let n = group.iter().fold(0u32, |n, b| n << 8 | *b as u32) << (8 * (3 - group.len()));
        for i in 0..4 {
            if i <= group.len() {
                out.push(letters[(n >> (18 - 6 * i) & 63) as usize] as char);
            } else {
                out.push('=');
            }
        }
    }
    out
}

#[test]
fn base64_decode_round_trips_rfc_vectors() {
    assert_eq!(base64_decode("").unwrap(), b"");
    assert_eq!(base64_decode("Zg==").unwrap(), b"f");
    assert_eq!(base64_decode("Zm8=").unwrap(), b"fo");
    assert_eq!(base64_decode("Zm9v").unwrap(), b"foo");
    assert_eq!(base64_decode("Zm9vYg==").unwrap(), b"foob");
    assert_eq!(base64_decode("Zm9vYmE=").unwrap(), b"fooba");
    assert_eq!(base64_decode("Zm9vYmFy").unwrap(), b"foobar");
    assert_eq!(base64_decode("Zm9v\nYmFy").unwrap(), b"foobar");
    let all: Vec<u8> = (0u8..=255).collect();
    assert_eq!(base64_decode(&b64_encode(&all)).unwrap(), all);
    assert!(base64_decode("Zg=").is_none());
    assert!(base64_decode("Zm9v====").is_none());
    assert!(base64_decode("Zm.9").is_none());
}

#[test]
fn only_the_last_group_is_padded() {
    assert!(base64_decode("Zg==!").is_none());
    assert!(base64_decode("Zg==Zg==").is_none());
    assert!(base64_decode("Zm8=Zm9v").is_none());
    assert_eq!(base64_decode("Zg==\n").unwrap(), b"f");
}

#[test]
fn every_cut_of_a_blob_is_truncated() {
    let mut cache = GeomCache::new();
    render_cached(&model(8), &mut cache);
    let blob = cache.export_since(0, &envelope());
    for n in 0..blob.len() {
        assert!(matches!(
            GeomCache::new().import_bytes(&blob[..n], &envelope()),
            Err(CacheImportError::Truncated)
        ));
    }
}

#[test]
fn epochs_start_at_one() {
    let mut cache = GeomCache::new();
    assert_eq!(cache.stats().epoch, 1);
    cache.export_since(0, &envelope());
    assert_eq!(cache.stats().epoch, 2);
}

#[test]
fn refusals_say_why() {
    let said = |e: CacheImportError| e.message();
    assert_eq!(said(CacheImportError::BadMagic), "not an OpenRSCAD cache blob");
    assert_eq!(
        said(CacheImportError::Format(7)),
        "unsupported cache blob format 7 (this engine reads 1)"
    );
    let foreign = CacheImportError::Envelope {
        field: "kernel",
        blob: "a\"b".to_string(),
        engine: "c".to_string(),
    };
    assert_eq!(said(foreign), "cache blob kernel is \"a\\\"b\"; this engine is \"c\"");
    assert_eq!(said(CacheImportError::Truncated), "truncated cache blob");
}
