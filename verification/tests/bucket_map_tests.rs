use bucket_map::BucketMap;
use bucket_map::BucketMapConfig;
use bucket_map::BucketMapError;
use bucket_map::Pubkey;
use bucket_map::RefCount;
use bucket_map::read_be_u64;
use std::collections::HashMap;

fn lcg(state: &mut u64) -> u64 {
    *state = state
        .wrapping_mul(6364136223846793005)
        .wrapping_add(1442695040888963407);
    *state
}

fn gen_range(state: &mut u64, lo: u64, hi: u64) -> u64 {
    lo + lcg(state) % (hi - lo)
}

/// A fresh key per call: a bijection of the counter spread over the
/// big-endian prefix, so keys land in different shards.
fn unique_pubkey(counter: &mut u64) -> Pubkey {
    *counter += 1;
    let v = counter
        .wrapping_mul(0x9E3779B97F4A7C15)
        .wrapping_add(0x243F6A8885A308D3);
    let mut b = [0u8; 32];
    b[0..8].copy_from_slice(&v.to_be_bytes());
    Pubkey::new_from_array(b)
}

fn rand_pubkey(state: &mut u64) -> Pubkey {
    let mut b = [0u8; 32];
    for chunk in b.chunks_mut(8) {
        chunk.copy_from_slice(&lcg(state).to_be_bytes());
    }
    Pubkey::new_from_array(b)
}

#[test]
fn bucket_map_test_insert() {
    let mut counter = 0u64;
    let key = unique_pubkey(&mut counter);
    let config = BucketMapConfig::new(1 << 1);
    let mut index = BucketMap::new(config);
    index.update(&key, |_| Some((vec![0], 0))).unwrap();
    assert_eq!(index.read_value(&key), Some((vec![0], 0)));
}

#[test]
fn bucket_map_test_insert2() {
    let mut counter = 0u64;
    for pass in 0..3 {
        let key = unique_pubkey(&mut counter);
        let config = BucketMapConfig::new(1 << 1);
        let mut index = BucketMap::new(config);
        let ix = index.bucket_ix(&key);
        if pass == 0 {
            index.insert(ix, &key, (&[0], 0)).unwrap();
        } else {
            let result = index.try_insert(ix, &key, (&[0], 0));
            assert!(result.is_err());
            assert_eq!(index.read_value(&key), None);
            if pass == 2 {
                // another call to try insert again - should still return an error
                let result = index.try_insert(ix, &key, (&[0], 0));
                assert!(result.is_err());
                assert_eq!(index.read_value(&key), None);
            }
            index.grow(ix, result.unwrap_err());
            let result = index.try_insert(ix, &key, (&[0], 0));
            assert!(result.is_ok());
        }
        assert_eq!(index.read_value(&key), Some((vec![0], 0)));
    }
}

#[test]
fn bucket_map_test_update2() {
    let mut counter = 0u64;
    let key = unique_pubkey(&mut counter);
    let config = BucketMapConfig::new(1 << 1);
    let mut index = BucketMap::new(config);
    let ix = index.bucket_ix(&key);
    index.insert(ix, &key, (&[0], 0)).unwrap();
    assert_eq!(index.read_value(&key), Some((vec![0], 0)));
    let ix = index.bucket_ix(&key);
    index.insert(ix, &key, (&[1], 0)).unwrap();
    assert_eq!(index.read_value(&key), Some((vec![1], 0)));
}

#[test]
fn bucket_map_test_update() {
    let mut counter = 0u64;
    let key = unique_pubkey(&mut counter);
    let config = BucketMapConfig::new(1 << 1);
    let mut index = BucketMap::new(config);
    index.update(&key, |_| Some((vec![0], 0))).unwrap();
    assert_eq!(index.read_value(&key), Some((vec![0], 0)));
    index.update(&key, |_| Some((vec![1], 0))).unwrap();
    assert_eq!(index.read_value(&key), Some((vec![1], 0)));
}

#[test]
fn bucket_map_test_update_to_0_len() {
    let mut counter = 0u64;
    let key = unique_pubkey(&mut counter);
    let config = BucketMapConfig::new(1 << 1);
    let mut index = BucketMap::new(config);
    index.update(&key, |_| Some((vec![0], 1))).unwrap();
    assert_eq!(index.read_value(&key), Some((vec![0], 1)));
    // sets len to 0, updates in place
    index.update(&key, |_| Some((vec![], 1))).unwrap();
    assert_eq!(index.read_value(&key), Some((vec![], 1)));
    // sets len to 0, doesn't update in place - finds a new place, which causes us to no longer have an allocation in data
    index.update(&key, |_| Some((vec![], 2))).unwrap();
    assert_eq!(index.read_value(&key), Some((vec![], 2)));
    // sets len to 1, doesn't update in place - finds a new place
    index.update(&key, |_| Some((vec![1], 2))).unwrap();
    assert_eq!(index.read_value(&key), Some((vec![1], 2)));
}

#[test]
fn bucket_map_test_delete() {
    let mut counter = 0u64;
    let config = BucketMapConfig::new(1 << 1);
    let mut index = BucketMap::new(config);
    for i in 0..10 {
        let key = unique_pubkey(&mut counter);
        assert_eq!(index.read_value(&key), None);

        index.update(&key, |_| Some((vec![i], 0))).unwrap();
        assert_eq!(index.read_value(&key), Some((vec![i], 0)));

        index.delete_key(&key);
        assert_eq!(index.read_value(&key), None);

        index.update(&key, |_| Some((vec![i], 0))).unwrap();
        assert_eq!(index.read_value(&key), Some((vec![i], 0)));
        index.delete_key(&key);
    }
}

#[test]
fn bucket_map_test_delete_2() {
    let mut counter = 0u64;
    let config = BucketMapConfig::new(1 << 2);
    let mut index = BucketMap::new(config);
    for i in 0..100 {
        let key = unique_pubkey(&mut counter);
        assert_eq!(index.read_value(&key), None);

        index.update(&key, |_| Some((vec![i], 0))).unwrap();
        assert_eq!(index.read_value(&key), Some((vec![i], 0)));

        index.delete_key(&key);
        assert_eq!(index.read_value(&key), None);

        index.update(&key, |_| Some((vec![i], 0))).unwrap();
        assert_eq!(index.read_value(&key), Some((vec![i], 0)));
        index.delete_key(&key);
    }
}

#[test]
fn bucket_map_test_n_drives() {
    let mut counter = 0u64;
    let config = BucketMapConfig::new(1 << 2);
    let mut index = BucketMap::new(config);
    for i in 0..100 {
        let key = unique_pubkey(&mut counter);
        index.update(&key, |_| Some((vec![i], 0))).unwrap();
        assert_eq!(index.read_value(&key), Some((vec![i], 0)));
    }
}

#[test]
fn bucket_map_test_grow_read() {
    let mut counter = 0u64;
    let config = BucketMapConfig::new(1 << 2);
    let mut index = BucketMap::new(config);
    let keys: Vec<Pubkey> = (0..100).map(|_| unique_pubkey(&mut counter)).collect();
    for k in 0..keys.len() {
        let key = &keys[k];
        let i = read_be_u64(key.as_bytes());
        index.update(key, |_| Some((vec![i], 0))).unwrap();
        assert_eq!(index.read_value(key), Some((vec![i], 0)));
        for (ix, key) in keys.iter().enumerate() {
            let i = read_be_u64(key.as_bytes());
            let expected = if ix <= k { Some((vec![i], 0)) } else { None };
            assert_eq!(index.read_value(key), expected);
        }
    }
}

#[test]
fn bucket_map_test_n_delete() {
    let mut counter = 0u64;
    let config = BucketMapConfig::new(1 << 2);
    let mut index = BucketMap::new(config);
    let keys: Vec<Pubkey> = (0..20).map(|_| unique_pubkey(&mut counter)).collect();
    for key in keys.iter() {
        let i = read_be_u64(key.as_bytes());
        index.update(key, |_| Some((vec![i], 0))).unwrap();
        assert_eq!(index.read_value(key), Some((vec![i], 0)));
    }
    for key in keys.iter() {
        let i = read_be_u64(key.as_bytes());
        assert_eq!(index.read_value(key), Some((vec![i], 0)));
    }
    for k in 0..keys.len() {
        let key = &keys[k];
        index.delete_key(key);
        assert_eq!(index.read_value(key), None);
        for key in keys.iter().skip(k + 1) {
            let i = read_be_u64(key.as_bytes());
            assert_eq!(index.read_value(key), Some((vec![i], 0)));
        }
    }
}

fn verify_maps(
    maps: &Vec<BucketMap<(usize, usize)>>,
    hash_map: &HashMap<Pubkey, (Vec<(usize, usize)>, RefCount)>,
) {
    let mut collected = maps
        .iter()
        .map(|map| {
            let mut r = vec![];
            for bin in 0..map.num_buckets() {
                r.append(&mut map.items_in_range(bin, &None));
            }
            r
        })
        .collect::<Vec<_>>();
    for (k, v) in hash_map.iter() {
        for map in collected.iter_mut() {
            for i in 0..map.len() {
                if k == &map[i].pubkey {
                    assert_eq!(map[i].slot_list, v.0);
                    assert_eq!(map[i].ref_count, v.1);
                    map.remove(i);
                    break;
                }
            }
        }
    }
    for map in collected.iter() {
        assert!(map.is_empty());
    }
}

#[test]
fn hashmap_compare() {
    let mut rng = 0xDEADBEEFu64;
    let mut maps = (0..2)
        .map(|max_buckets_pow2| {
            let config = BucketMapConfig::new(1 << max_buckets_pow2);
            BucketMap::new(config)
        })
        .collect::<Vec<_>>();
    let mut hash_map = HashMap::<Pubkey, (Vec<(usize, usize)>, RefCount)>::new();
    let max_slot_list_len = 3u64;
    let mut all_keys: Vec<Pubkey> = vec![];

    let mut initial = 100; // put this many items in to start

    // do random operations: insert, update, delete, add/unref in random order
    // verify consistency between hashmap and all bucket maps
    for i in 0..10000 {
        let mut gen_rand_value = |rng: &mut u64| {
            let count = gen_range(rng, 0, max_slot_list_len);
            let v = (0..count)
                .map(|x| (x as usize, x as usize))
                .collect::<Vec<_>>();
            let rc = lcg(rng);
            (v, rc)
        };
        if initial > 0 {
            initial -= 1;
        }
        if initial > 0 || gen_range(&mut rng, 0, 5) == 0 {
            // insert
            let k = rand_pubkey(&mut rng);
            let v = gen_rand_value(&mut rng);
            hash_map.insert(k, v.clone());
            let insert = gen_range(&mut rng, 0, 2) == 0;
            for map in maps.iter_mut() {
                if insert {
                    let ix = map.bucket_ix(&k);
                    map.insert(ix, &k, (&v.0, v.1)).unwrap();
                } else {
                    map.update(&k, |current| {
                        assert!(current.is_none());
                        Some(v.clone())
                    })
                    .unwrap();
                }
            }
            all_keys.push(k);
        }
        if gen_range(&mut rng, 0, 10) == 0 {
            // update
            if !all_keys.is_empty() {
                let ki = gen_range(&mut rng, 0, all_keys.len() as u64) as usize;
                let k = all_keys.remove(ki);
                let (v, rc) = gen_rand_value(&mut rng);
                let v_old = hash_map.get(&k).cloned();
                let insert = gen_range(&mut rng, 0, 2) == 0;
                for map in maps.iter_mut() {
                    if insert {
                        let ix = map.bucket_ix(&k);
                        map.insert(ix, &k, (&v, rc)).unwrap();
                    } else {
                        map.update(&k, |current| {
                            assert_eq!(
                                current,
                                v_old.as_ref().map(|(v, rc)| (&v[..], *rc)),
                                "{:?}",
                                k
                            );
                            Some((v.clone(), rc))
                        })
                        .unwrap();
                    }
                }
                hash_map.insert(k, (v, rc));
                all_keys.push(k);
            }
        }
        if gen_range(&mut rng, 0, 20) == 0 {
            // delete
            if !all_keys.is_empty() {
                let ki = gen_range(&mut rng, 0, all_keys.len() as u64) as usize;
                let k = all_keys.remove(ki);
                hash_map.remove(&k);
                for map in maps.iter_mut() {
                    map.delete_key(&k);
                }
            }
        }
        if gen_range(&mut rng, 0, 10) == 0 {
            // add/unref
            if !all_keys.is_empty() {
                let ki = gen_range(&mut rng, 0, all_keys.len() as u64) as usize;
                let k = all_keys.remove(ki);
                let mut inc = gen_range(&mut rng, 0, 2) == 0;
                let (v, mut rc) = hash_map.get(&k).map(|(v, rc)| (v.to_vec(), *rc)).unwrap();
                if !inc && rc == 0 {
                    // can't decrement rc=0
                    inc = true;
                }
                rc = if inc { rc + 1 } else { rc - 1 };
                hash_map.insert(k, (v.to_vec(), rc));
                for map in maps.iter_mut() {
                    if gen_range(&mut rng, 0, 2) == 0 {
                        map.update(&k, |current| Some((current.unwrap().0.to_vec(), rc)))
                            .unwrap();
                    } else if inc {
                        map.addref(&k);
                    } else {
                        map.unref(&k);
                    }
                }
                all_keys.push(k);
            }
        }
        if i % 1000 == 0 {
            verify_maps(&maps, &hash_map);
        }
    }
    verify_maps(&maps, &hash_map);
}

#[test]
fn empty_list_round_trip() {
    let mut counter = 0u64;
    let key = unique_pubkey(&mut counter);
    let config = BucketMapConfig::new(1 << 1);
    let mut index: BucketMap<u64> = BucketMap::new(config);
    let ix = index.bucket_ix(&key);
    index.insert(ix, &key, (&[], 7)).unwrap();
    assert_eq!(index.read_value(&key), Some((vec![], 7)));
    index.delete_key(&key);
    assert_eq!(index.read_value(&key), None);
}

#[test]
fn addref_unref_steps() {
    let mut counter = 0u64;
    let key = unique_pubkey(&mut counter);
    let absent = unique_pubkey(&mut counter);
    let config = BucketMapConfig::new(1 << 1);
    let mut index: BucketMap<u64> = BucketMap::new(config);
    let ix = index.bucket_ix(&key);
    index.insert(ix, &key, (&[5], 1)).unwrap();
    assert_eq!(index.addref(&key), Some(2));
    assert_eq!(index.read_value(&key), Some((vec![5], 2)));
    assert_eq!(index.unref(&key), Some(1));
    assert_eq!(index.unref(&key), Some(0));
    // a count of zero stays zero
    assert_eq!(index.unref(&key), Some(0));
    assert_eq!(index.read_value(&key), Some((vec![5], 0)));
    assert_eq!(index.addref(&absent), None);
    assert_eq!(index.unref(&absent), None);
}

#[test]
fn shard_partition() {
    let mut counter = 0u64;
    let config = BucketMapConfig::new(1 << 3);
    let mut index: BucketMap<u64> = BucketMap::new(config);
    let keys: Vec<Pubkey> = (0..64).map(|_| unique_pubkey(&mut counter)).collect();
    for key in keys.iter() {
        let ix = index.bucket_ix(key);
        assert!(ix < index.num_buckets());
        index.insert(ix, key, (&[1], 0)).unwrap();
    }
    let mut seen = 0;
    for bin in 0..index.num_buckets() {
        for k in index.keys(bin) {
            assert_eq!(index.bucket_ix(&k), bin);
            seen += 1;
        }
        assert_eq!(index.bucket_len(bin) as usize, index.keys(bin).len());
    }
    assert_eq!(seen, keys.len());
}

#[test]
fn index_grow_error_variant() {
    // two keys with the same home slot and a probe window of one: the
    // second write asks for an index grow
    let mut config = BucketMapConfig::new(1 << 0);
    config.max_search = Some(1);
    let mut index: BucketMap<u64> = BucketMap::new(config);
    let k1 = Pubkey::new_from_array([0u8; 32]);
    let mut b2 = [0u8; 32];
    b2[0] = 0x04;
    let k2 = Pubkey::new_from_array(b2);
    index.insert(0, &k1, (&[1], 0)).unwrap();
    let err = index.try_insert(0, &k2, (&[2], 0)).unwrap_err();
    match err {
        BucketMapError::IndexNoSpace(_) => {}
        BucketMapError::DataNoSpace(_) => panic!("wrong grow axis"),
    }
    index.grow(0, err);
    assert!(index.try_insert(0, &k2, (&[2], 0)).is_ok());
    assert_eq!(index.read_value(&k1), Some((vec![1], 0)));
    assert_eq!(index.read_value(&k2), Some((vec![2], 0)));
}

#[test]
fn data_grow_error_variant() {
    let config = BucketMapConfig::new(1 << 0);
    let mut index: BucketMap<u64> = BucketMap::new(config);
    let key = Pubkey::new_from_array([9u8; 32]);
    let err = index.try_insert(0, &key, (&[3], 0)).unwrap_err();
    match err {
        BucketMapError::DataNoSpace(_) => {}
        BucketMapError::IndexNoSpace(_) => panic!("wrong grow axis"),
    }
    index.grow(0, err);
    assert!(index.try_insert(0, &key, (&[3], 0)).is_ok());
    assert_eq!(index.read_value(&key), Some((vec![3], 0)));
}

#[test]
fn read_be_u64_exact() {
    let bytes = [1u8, 2, 3, 4, 5, 6, 7, 8, 0, 0, 0, 0, 0, 0, 0, 0];
    assert_eq!(read_be_u64(&bytes), 0x0102030405060708);
    let top = [0x80u8, 0, 0, 0, 0, 0, 0, 0, 0];
    assert_eq!(read_be_u64(&top), 1u64 << 63);
}

#[test]
fn bucket_ix_top_bits() {
    let config = BucketMapConfig::new(1 << 2);
    let index: BucketMap<u64> = BucketMap::new(config);
    let mut b = [0u8; 32];
    b[0] = 0xC0; // top two bits set
    assert_eq!(index.bucket_ix(&Pubkey::new_from_array(b)), 3);
    b[0] = 0x40;
    assert_eq!(index.bucket_ix(&Pubkey::new_from_array(b)), 1);
    b[0] = 0x00;
    assert_eq!(index.bucket_ix(&Pubkey::new_from_array(b)), 0);
}

#[test]
fn items_in_range_filters() {
    let config = BucketMapConfig::new(1 << 0);
    let mut index: BucketMap<u64> = BucketMap::new(config);
    let mut keys = vec![];
    for i in 0..8u8 {
        let mut b = [0u8; 32];
        b[0] = i * 16;
        let k = Pubkey::new_from_array(b);
        index.insert(0, &k, (&[i as u64], 0)).unwrap();
        keys.push(k);
    }
    let range = Some(bucket_map::PubkeyRange {
        start: Some(keys[2]),
        end: Some(keys[5]),
    });
    let items = index.items_in_range(0, &range);
    assert_eq!(items.len(), 3);
    for item in items.iter() {
        let b0 = item.pubkey.as_bytes()[0];
        assert!((2 * 16..5 * 16).contains(&b0));
    }
    let all = index.items_in_range(0, &None);
    assert_eq!(all.len(), 8);
}
