use backup_stream::stream_event::{EventEncoder, EventIterator};
use rand::Rng;

fn written(key: &[u8], value: &[u8]) -> Vec<u8> {
    let mut event = vec![];
    for s in EventEncoder::encode_event(key, value) {
        event.extend_from_slice(s.as_ref());
    }
    event
}

#[test]
fn test_encode_decode() {
    let mut rng = rand::thread_rng();
    for _i in 0..10 {
        let key: Vec<u8> = (0..100).map(|_| rng.gen_range(0..255)).collect();
        let val: Vec<u8> = (0..100).map(|_| rng.gen_range(0..255)).collect();
        let e = EventEncoder::encode_event(&key, &val);
        let mut event = vec![];
        for s in e {
            event.extend_from_slice(s.as_ref());
        }
        let (decoded_key, decoded_val) = EventEncoder::decode_event(&event);
        assert_eq!(key, decoded_key);
        assert_eq!(val, decoded_val);
    }
}

#[test]
fn test_decode_events() {
    let mut rng = rand::thread_rng();
    let mut event = vec![];
    let mut keys = vec![];
    let mut vals = vec![];
    let count = 20;

    for _i in 0..count {
        let key: Vec<u8> = (0..100).map(|_| rng.gen_range(0..255)).collect();
        let val: Vec<u8> = (0..100).map(|_| rng.gen_range(0..255)).collect();
        let e = EventEncoder::encode_event(&key, &val);
        for s in e {
            event.extend_from_slice(s.as_ref());
        }
        keys.push(key);
        vals.push(val);
    }

    let mut iter = EventIterator::new(event);

    let mut index = 0_usize;
    while let Some(k) = iter.next() {
        assert_eq!(k, keys[index]);
        assert_eq!(iter.val, vals[index]);
        index += 1;
    }
    assert_eq!(count, index);
}

#[test]
fn an_event_is_two_prefixed_fields() {
    assert_eq!(
        written(b"ab", b"c"),
        vec![2, 0, 0, 0, b'a', b'b', 1, 0, 0, 0, b'c']
    );
    assert_eq!(written(b"", b""), vec![0; 8]);
}

#[test]
fn lengths_are_little_endian() {
    let key = vec![7u8; 0x0102];
    let event = written(&key, b"v");
    assert_eq!(event[..4].to_vec(), vec![0x02, 0x01, 0, 0]);
    let key = vec![7u8; 0x01_0203];
    let event = written(&key, b"v");
    assert_eq!(event[..4].to_vec(), vec![0x03, 0x02, 0x01, 0]);
    let (k, v) = EventEncoder::decode_event(&event);
    assert_eq!(k, key);
    assert_eq!(v, b"v".to_vec());
}

#[test]
fn decoding_ignores_what_follows() {
    let mut event = written(b"key", b"value");
    event.extend_from_slice(&[1, 2, 3]);
    assert_eq!(
        EventEncoder::decode_event(&event),
        (b"key".to_vec(), b"value".to_vec())
    );
}

#[test]
fn reading_gives_back_the_bytes() {
    let bytes = vec![1, 0, 0, 0, 0xfe, 2, 0, 0, 0, 3, 4];
    let (k, v) = EventEncoder::decode_event(&bytes);
    assert_eq!((k.clone(), v.clone()), (vec![0xfe], vec![3, 4]));
    assert_eq!(written(&k, &v), bytes);
}

#[test]
fn an_exhausted_iterator_stays_exhausted() {
    let mut iter = EventIterator::new(vec![]);
    assert!(iter.next().is_none());
    assert!(iter.val.is_empty());

    let mut stream = written(b"", b"x");
    stream.extend(written(b"k", b""));
    let mut iter = EventIterator::new(stream);
    assert_eq!(iter.next(), Some(vec![]));
    assert_eq!(iter.val, b"x".to_vec());
    assert_eq!(iter.next(), Some(b"k".to_vec()));
    assert!(iter.val.is_empty());
    assert_eq!(iter.next(), None);
    assert_eq!(iter.next(), None);
}
