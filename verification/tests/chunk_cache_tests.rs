use wildforge::chunk_cache::{EncodeStep, EncodedChunks};
use wildforge::planet::{ChunkPos, Face};

#[test]
fn payloads_are_served_only_for_their_revision() {
    let a = ChunkPos { face: Face::NegZ, u: 0, v: 16 };
    let b = ChunkPos { face: Face::NegZ, u: 16, v: 16 };
    let mut cache = EncodedChunks::new();
    assert_eq!(cache.encoded_or_claim(a), EncodeStep::Request(0));
    assert_eq!(cache.encoded_or_claim(a), EncodeStep::Pending);
    cache.adopt(a, 0, vec![1, 2, 3], true);
    assert_eq!(cache.encoded_or_claim(a), EncodeStep::Ready(vec![1, 2, 3]));
    // An edit drops the payload and advances the revision.
    cache.invalidate_encoded(a);
    assert_eq!(cache.revision(a), 1);
    assert_eq!(cache.encoded_or_claim(a), EncodeStep::Request(1));
    // A stale encoding finishing late is dropped.
    cache.adopt(a, 0, vec![9], true);
    assert_eq!(cache.encoded_or_claim(a), EncodeStep::Pending);
    cache.adopt(a, 1, vec![4], true);
    assert_eq!(cache.encoded_or_claim(a), EncodeStep::Ready(vec![4]));
    // An unwanted chunk is not cached; a refused request can be claimed again.
    assert_eq!(cache.encoded_or_claim(b), EncodeStep::Request(0));
    cache.adopt(b, 0, vec![5], false);
    assert_eq!(cache.encoded_or_claim(b), EncodeStep::Request(0));
    cache.release(b, 0);
    assert_eq!(cache.encoded_or_claim(b), EncodeStep::Request(0));
    cache.forget(a);
    assert_eq!(cache.encoded_or_claim(a), EncodeStep::Request(1));
}
