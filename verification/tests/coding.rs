use subcode::bulk;
use subcode::bulk::{BulkConfig, BulkError};
use subcode::cayley::{CayleyError, CayleyGraph};
use subcode::fib_backoff::FibBackoff;
use subcode::fib_hash::{fib_hash64, fib_hash64_u64, golden_of, GOLDEN64, GOLDEN64_INVERSE};
use subcode::fountain::{peel_decode, FountainDecoder, FountainEncoder, FountainError};
use subcode::gf256;
use subcode::gf256::{
    gf_add, gf_axpy_slice, gf_div, gf_dot, gf_gauss_eliminate, gf_inv, gf_mul, gf_scal_slice,
    mul_row,
};
use subcode::hierarchical::{HierDecoder, HierEncoder, HierError};
use subcode::homohash::{
    subgroup_gen, verify_coded, HomoHashError, HomomorphicHash, GENERATOR, P, Q,
};
use subcode::placement::{placement_fixed, GoldenRing};
use subcode::rs;
use subcode::rs::{RsEncoder, RsError};
use subcode::zeckendorf::{codeword_nbits, zeck_decode, zeck_encode, ZeckStream};

/// The robust soliton distribution over degrees `1..=k`, in units of 2^-53.
fn soliton(k: usize) -> Vec<u64> {
    let kf = k as f64;
    let s = (0.1 * (kf / 0.5).ln() * (kf / 0.5).sqrt()).ceil();
    let mut probs: Vec<f64> = Vec::new();
    let mut sum = 0.0;
    for i in 1..=k {
        let x = i as f64;
        let ideal = if i == 1 {
            1.0 / kf
        } else {
            1.0 / (x * (x - 1.0))
        };
        let tau = if x < kf / s {
            s / (kf * x)
        } else if (kf / s).floor() == x.floor() {
            s * (kf / s).abs() / kf
        } else {
            0.0
        };
        probs.push(ideal + tau);
        sum += ideal + tau;
    }
    let mut acc = 0.0;
    probs
        .iter()
        .map(|p| {
            acc += p;
            (acc / sum * (1u64 << 53) as f64).floor() as u64
        })
        .collect()
}

fn sources(k: usize, sz: usize, step: usize) -> Vec<Vec<u8>> {
    (0..k)
        .map(|i| (0..sz).map(|j| ((i * step + j) & 0xFF) as u8).collect())
        .collect()
}

// ---- the field --------------------------------------------------------------
#[test]
fn field_laws() {
    for a in 1..=255u8 {
        assert_eq!(gf_mul(a, gf_inv(a)), 1);
    }
    for a in 0..=255 {
        for b in 0..=255 {
            for c in 0..=255 {
                let lhs = gf_mul(a, gf_add(b, c));
                let rhs = gf_add(gf_mul(a, b), gf_mul(a, c));
                assert_eq!(lhs, rhs);
            }
        }
    }
}

#[test]
fn simd_matches_scalar() {
    let src: Vec<u8> = (0..1000)
        .map(|i| (i as u32).wrapping_mul(2654435761) as u8)
        .collect();
    let lengths = [
        0usize, 1, 15, 16, 17, 31, 32, 33, 63, 64, 100, 127, 128, 999,
    ];
    for &a in &[0u8, 1, 2, 3, 7, 17, 128, 200, 255] {
        for &len in &lengths {
            let s = &src[..len.min(src.len())];
            let mut scalar = vec![0u8; len];
            let mut simd = vec![0u8; len];
            for _ in 0..3 {
                let mut tmp = s.to_vec();
                for (d, &v) in scalar.iter_mut().zip(tmp.iter()) {
                    *d ^= gf_mul(a, v);
                }
                tmp.copy_from_slice(s);
                gf_axpy_slice(a, &tmp, &mut simd);
            }
            assert_eq!(scalar, simd, "axpy mismatch a={a} len={len}");
            let mut scalar = vec![];
            let mut simd = vec![];
            for i in 0..len {
                let v = (i as u32).wrapping_mul(2246822519) as u8 | 1;
                scalar.push(v);
                simd.push(v);
            }
            let row = mul_row(a);
            for d in scalar.iter_mut() {
                *d = row[*d as usize];
            }
            gf_scal_slice(a, &mut simd);
            assert_eq!(scalar, simd, "scal mismatch a={a} len={len}");
        }
    }
}

#[test]
fn the_field_has_its_known_products() {
    assert_eq!(gf_mul(0x53, 0xCA), 1);
    assert_eq!(gf_mul(0x57, 0x83), 0xC1);
    assert_eq!(gf_inv(0x53), 0xCA);
    assert_eq!(gf_inv(0), 0);
    assert_eq!(gf_div(0xC1, 0x83), 0x57);
    assert_eq!(gf_div(7, 0), 0);
    assert_eq!(gf256::add(0x57, 0x83), 0xD4);
    assert_eq!(gf256::mul(0x57, 0x83), 0xC1);
    assert_eq!(gf256::inv(0xCA), 0x53);
}

#[test]
fn products_of_vectors() {
    let mut dst = [1u8, 2, 3];
    gf256::axpy(&mut dst, 2, &[1, 1, 0x80]);
    assert_eq!(dst, [3, 0, 3 ^ 0x1B]);
    gf256::scal_inplace(&mut dst, 0);
    assert_eq!(dst, [0, 0, 0]);
    let rows: [&[u8]; 2] = [&[1, 2], &[3, 4]];
    assert_eq!(gf_dot(&[1, 2], &rows), vec![1 ^ 6, 2 ^ 8]);
}

#[test]
fn elimination_finds_the_rank() {
    let mut mat = [1u8, 2, 5, 2, 4, 10, 0, 1, 7];
    assert_eq!(gf_gauss_eliminate(&mut mat, 3, 2), 2);
    assert_eq!(&mat[0..2], &[1, 0]);
    assert_eq!(&mat[3..5], &[0, 1]);
}

// ---- Reed-Solomon -----------------------------------------------------------
#[test]
fn any_k_reconstruct() {
    let k = 4;
    let m = 2;
    let sz = 8;
    let data = sources(k, sz, 31);
    let enc = RsEncoder::new(k, m, sz).unwrap();
    let cw = enc.encode(&data).unwrap();
    assert_eq!(cw.len(), k + m);
    let survived: Vec<(usize, Vec<u8>)> =
        [0, 2, 3, 5].iter().map(|&i| (i, cw[i].clone())).collect();
    let rec = rs::decode(k, m, sz, &survived).unwrap();
    assert_eq!(rec, data);
}

#[test]
fn every_choice_of_symbols_reconstructs() {
    let data = sources(3, 5, 77);
    let enc = RsEncoder::new(3, 3, 5).unwrap();
    assert_eq!((enc.k(), enc.n()), (3, 6));
    let cw = enc.encode(&data).unwrap();
    for a in 0..6 {
        for b in 0..6 {
            for c in 0..6 {
                let survived: Vec<(usize, Vec<u8>)> =
                    [a, b, c].iter().map(|&i: &usize| (i, cw[i].clone())).collect();
                let got = rs::decode(3, 3, 5, &survived);
                if a != b && b != c && a != c {
                    assert_eq!(got, Ok(data.clone()));
                } else {
                    assert!(matches!(got, Err(RsError::Insufficient { need: 3, .. })));
                }
            }
        }
    }
}

#[test]
fn codewords_can_be_refused() {
    assert!(matches!(RsEncoder::new(0, 2, 8), Err(RsError::Empty)));
    let enc = RsEncoder::new(2, 1, 4).unwrap();
    let e = enc.encode(&[vec![0; 4]]).unwrap_err();
    assert_eq!(e, RsError::SizeMismatch { a: 1, b: 2 });
    assert_eq!(e.message(), "symbol size mismatch: 1 vs 2");
    let e = enc.encode(&[vec![0; 4], vec![0; 3]]).unwrap_err();
    assert_eq!(e, RsError::SizeMismatch { a: 3, b: 4 });
    let e = rs::decode(2, 1, 4, &[(0, vec![1; 4])]).unwrap_err();
    assert_eq!(e, RsError::Insufficient { have: 1, need: 2 });
    assert_eq!(e.message(), "need 2 symbols, have 1");
    assert_eq!(RsError::Empty.message(), "empty generation");
}

// ---- the fountain -----------------------------------------------------------
#[test]
fn systematic_plus_repairs_decode() {
    let k = 16;
    let sz = 32;
    let src = sources(k, sz, 31);
    let mut enc = FountainEncoder::new(src.clone(), 1, soliton(k)).unwrap();
    let wire = enc.produce(k + 2).unwrap();
    let mut dec = FountainDecoder::new(k, sz);
    for (i, w) in wire.iter().enumerate() {
        if i == 0 || i == 3 {
            continue;
        }
        dec.add(w).unwrap();
    }
    let rec = dec.decode().unwrap();
    assert_eq!(rec, src);
}

#[test]
fn peeling_handles_heavy_loss_with_repairs() {
    let k = 32;
    let sz = 16;
    let src = sources(k, sz, 17);
    let mut enc = FountainEncoder::new(src.clone(), 7, soliton(k)).unwrap();
    let wire = enc.produce(k + 16).unwrap();
    let mut dec = FountainDecoder::new(k, sz);
    for (i, w) in wire.iter().enumerate() {
        if i < 4 {
            continue;
        }
        dec.add(w).unwrap();
    }
    let rec = dec.decode().unwrap();
    assert_eq!(rec, src);
}

#[test]
fn systematic_only_decodes_in_linear_time() {
    let k = 128;
    let sz = 8;
    let src = sources(k, sz, 5);
    let mut enc = FountainEncoder::new(src.clone(), 9, soliton(k)).unwrap();
    let wire = enc.produce(k).unwrap();
    let mut dec = FountainDecoder::new(k, sz);
    for w in &wire {
        dec.add(w).unwrap();
    }
    assert_eq!(dec.decode().unwrap(), src);
}

#[test]
fn a_source_is_sent_with_its_number() {
    let src = vec![vec![7u8, 8], vec![9, 10]];
    let mut enc = FountainEncoder::new(src, 3, soliton(2)).unwrap();
    assert_eq!((enc.k(), enc.symbol_size()), (2, 2));
    let wire = enc.produce(3).unwrap();
    assert_eq!(wire[0], vec![1, 0, 0, 0, 1, 7, 8]);
    assert_eq!(wire[1], vec![1, 0, 1, 0, 1, 9, 10]);
    let pairs = wire[2][0] as usize;
    assert!(pairs == 1 || pairs == 2);
    assert_eq!(wire[2].len(), 2 + 3 * pairs + 2);
}

#[test]
fn fountains_can_be_refused() {
    assert!(matches!(FountainEncoder::new(vec![], 1, vec![]), Err(FountainError::Empty)));
    let bad = FountainEncoder::new(vec![vec![1, 2], vec![3]], 1, soliton(2));
    assert!(matches!(bad, Err(FountainError::SizeMismatch { a: 2, b: 1 })));
    let buf = std::sync::Arc::new(vec![0u8; 10]);
    let short = FountainEncoder::new_shared(buf.clone(), 4, 4, 2, 0, vec![]);
    assert!(matches!(short, Err(FountainError::SizeMismatch { a: 10, b: 12 })));
    assert!(matches!(
        FountainEncoder::new_shared(buf, 0, 0, 2, 0, vec![]),
        Err(FountainError::Empty)
    ));
    let mut dec = FountainDecoder::new(3, 2);
    assert_eq!(dec.k(), 3);
    assert_eq!(dec.add(&[1]), Err(FountainError::SizeMismatch { a: 1, b: 2 }));
    assert_eq!(dec.add(&[1, 0, 0, 0, 1, 5]), Err(FountainError::SizeMismatch { a: 6, b: 7 }));
    assert_eq!(dec.add(&[1, 0, 9, 0, 1, 5, 6]), Ok(false));
    assert_eq!(dec.add(&[1, 0, 0, 0, 1, 5, 6]), Ok(true));
    assert_eq!(dec.rank(), 1);
    let e = dec.decode().unwrap_err();
    assert_eq!(e, FountainError::Underdetermined { have: 1, need: 3 });
    assert_eq!(e.message(), "decode failed: only 1 of 3 independent symbols");
    assert_eq!(FountainError::Empty.message(), "empty generation");
    assert_eq!(
        FountainError::SizeMismatch { a: 2, b: 1 }.message(),
        "symbol size mismatch: 2 vs 1"
    );
}

#[test]
fn decoding_can_be_tried_again() {
    let src = vec![vec![7u8, 8], vec![9, 10], vec![11, 12]];
    let mut enc = FountainEncoder::new(src.clone(), 3, soliton(3)).unwrap();
    let wire = enc.produce(3).unwrap();
    let mut dec = FountainDecoder::new(3, 2);
    dec.add(&wire[0]).unwrap();
    dec.add(&wire[0]).unwrap();
    dec.add(&wire[1]).unwrap();
    // Peeling reveals two sources; nothing speaks of the third.
    assert_eq!(dec.decode(), Err(FountainError::Underdetermined { have: 0, need: 1 }));
    assert_eq!(dec.decode(), Err(FountainError::Underdetermined { have: 0, need: 1 }));
    dec.add(&wire[2]).unwrap();
    assert_eq!(dec.decode().unwrap(), src);
    assert_eq!(dec.decode().unwrap(), src);
}

#[test]
fn what_peeling_leaves_is_counted() {
    // One row reveals the first source; the other two rows leave the same sum.
    let rows = vec![vec![1u8, 0, 0, 5], vec![0, 1, 1, 3], vec![1, 1, 1, 6]];
    assert_eq!(
        peel_decode(&rows, 3, 1),
        Err(FountainError::Underdetermined { have: 1, need: 2 })
    );
    let empty = vec![vec![1u8, 0, 0], vec![0, 1, 1], vec![0, 1, 2]];
    assert_eq!(
        peel_decode(&empty, 3, 0),
        Err(FountainError::Underdetermined { have: 0, need: 2 })
    );
    let e = rs::decode(2, 1, 1, &[(0, vec![4]), (0, vec![4])]).unwrap_err();
    assert_eq!(e, RsError::Insufficient { have: 1, need: 2 });
}

#[test]
fn contradictions_are_answered_by_some_of_the_symbols() {
    let rows = vec![vec![1u8, 0, 5], vec![1, 0, 9], vec![0, 1, 7]];
    let out = peel_decode(&rows, 2, 1).unwrap();
    assert_eq!(out[1], vec![7]);
    assert!(out[0] == vec![5] || out[0] == vec![9]);
}

#[test]
fn rows_are_peeled() {
    let rows = vec![vec![1u8, 0, 9], vec![1, 1, 9 ^ 4]];
    assert_eq!(peel_decode(&rows, 2, 1), Ok(vec![vec![9], vec![4]]));
    let twice = vec![vec![1u8, 0, 9], vec![2, 0, gf_mul(2, 9)]];
    assert!(matches!(peel_decode(&twice, 2, 1), Err(FountainError::Underdetermined { .. })));
}

#[test]
fn nothing_to_work_on_is_told_whatever_the_sizes() {
    let mut none: Vec<u8> = Vec::new();
    assert_eq!(gf_gauss_eliminate(&mut none, 2, 5), 0);
    assert_eq!(
        rs::decode(usize::MAX, 1, 1, &[]),
        Err(RsError::Insufficient { have: 0, need: usize::MAX })
    );
    assert!(matches!(HierEncoder::new(Vec::new(), usize::MAX, 1, 1), Err(HierError::Empty)));
}

#[test]
fn rows_of_zeros_need_no_payload() {
    let rows = vec![vec![0u8, 0], vec![1, 0, 9], vec![0, 0, 7], vec![1, 1, 9 ^ 4]];
    assert_eq!(peel_decode(&rows, 2, 1), Ok(vec![vec![9], vec![4]]));
}

// ---- bulk transfer ----------------------------------------------------------
#[test]
fn parallel_bulk_roundtrip() {
    let payload: Vec<u8> = (0..200_000).map(|i| (i & 0xFF) as u8).collect();
    let cfg = BulkConfig {
        gen_size: 256,
        symbol_size: 1024,
        repair: (256.0f64 * 0.02).ceil() as usize,
        generations: 8,
    };
    let coded = bulk::encode(&payload, &cfg, &soliton(256)).unwrap();
    let rec = bulk::decode(coded, &cfg, payload.len()).unwrap();
    assert_eq!(rec, payload);
}

#[test]
fn generations_may_arrive_in_any_order() {
    let payload: Vec<u8> = (0..1000).map(|i| (i * 7 % 251) as u8).collect();
    let cfg = BulkConfig { gen_size: 4, symbol_size: 16, repair: 3, generations: 2 };
    let mut coded = bulk::encode(&payload, &cfg, &soliton(4)).unwrap();
    assert_eq!(coded.len(), 16 * 7);
    assert_eq!(coded[7].0, 1);
    coded.reverse();
    assert_eq!(bulk::decode(coded, &cfg, payload.len()).unwrap(), payload);
}

#[test]
fn a_missing_generation_is_named() {
    let payload = vec![5u8; 200];
    let cfg = BulkConfig { gen_size: 4, symbol_size: 16, repair: 0, generations: 2 };
    let coded = bulk::encode(&payload, &cfg, &soliton(4)).unwrap();
    let lost: Vec<(u32, Vec<u8>)> =
        coded.into_iter().enumerate().filter(|(i, _)| *i != 5).map(|(_, p)| p).collect();
    let e = bulk::decode(lost, &cfg, 200).unwrap_err();
    let inner = FountainError::Underdetermined { have: 3, need: 4 };
    assert_eq!(e, BulkError::Generation { gen: 1, inner });
    assert_eq!(
        e.message(),
        "generation 1 decode failed: decode failed: only 3 of 4 independent symbols"
    );
}

#[test]
fn bulk_edges() {
    let cfg = BulkConfig::default();
    assert_eq!((cfg.gen_size, cfg.symbol_size, cfg.generations), (1024, 4096, 16));
    assert_eq!(cfg.repair, (1024.0f64 * 0.02).ceil() as usize);
    assert_eq!(cfg.with_repair(3).repair, 3);
    let e = bulk::encode(&[], &cfg, &vec![]).unwrap_err();
    assert_eq!(e, BulkError::Empty);
    assert_eq!(e.message(), "empty bulk payload");
    assert_eq!(bulk::decode(vec![], &cfg, 10), Ok(vec![]));
    assert_eq!(BulkError::SizeMismatch { a: 1, b: 2 }.message(), "size mismatch: 1 vs 2");
}

// ---- two layers -------------------------------------------------------------
#[test]
fn any_groups_give_the_context_back() {
    let data = sources(4, 6, 13);
    let enc = HierEncoder::new(data.clone(), 4, 2, 6).unwrap();
    assert_eq!((enc.k(), enc.n()), (4, 6));
    let groups = enc.into_groups(3, u64::MAX);
    assert_eq!(groups.len(), 3);
    assert_eq!(groups[1].owned, vec![1, 4]);
    assert_eq!(groups[0].seed, u64::MAX);
    assert_eq!(groups[1].seed, 0);
    let mut dec = HierDecoder::new(4, 2, 6);
    for gi in [2usize, 0] {
        assert!(!dec.ready());
        let syms: Vec<Vec<u8>> = groups[gi].symbols.iter().map(|s| s.to_vec()).collect();
        dec.add_group(&groups[gi].owned, Ok(syms)).unwrap();
    }
    assert!(dec.ready());
    assert_eq!(dec.decode().unwrap(), data);
}

#[test]
fn a_symbol_counts_once() {
    let data = sources(2, 3, 9);
    let enc = HierEncoder::new(data.clone(), 2, 1, 3).unwrap();
    let groups = enc.into_groups(1, 0);
    let s = |i: usize| groups[0].symbols[i].to_vec();
    let mut dec = HierDecoder::new(2, 1, 3);
    assert_eq!(dec.add_group(&[1, 1], Ok(vec![s(1), s(1)])).unwrap(), 2);
    assert!(!dec.ready());
    let e = dec.decode().unwrap_err();
    assert_eq!(e.message(), "rs: only 1 outer symbols, need 2");
    assert_eq!(dec.add_group(&[2], Ok(vec![s(2)])).unwrap(), 3);
    assert!(dec.ready());
    assert_eq!(dec.decode().unwrap(), data);
}

#[test]
fn contexts_can_be_refused() {
    assert!(matches!(HierEncoder::new(vec![], 1, 1, 1), Err(HierError::Empty)));
    assert_eq!(HierError::Empty.message(), "empty context");
    let e = HierEncoder::new(vec![vec![1]], 2, 1, 1).err().unwrap();
    assert_eq!(e.message(), "rs: symbol size mismatch: 1 vs 2");
    let mut dec = HierDecoder::new(2, 1, 3);
    let e = dec.add_group(&[0], Err("too few".to_string())).unwrap_err();
    assert_eq!(e.message(), "rlnc: too few");
    assert!(!dec.ready());
}

// ---- the homomorphic hash ---------------------------------------------------
fn q_add(x: u32, y: u32) -> u32 {
    let s = (x as u64 + y as u64) % Q as u64;
    s as u32
}

fn q_mul(x: u32, y: u32) -> u32 {
    let p = (x as u64 * y as u64) % Q as u64;
    p as u32
}

#[test]
fn homomorphism_holds() {
    let k = 16;
    let hh = HomomorphicHash::new(k);
    let c1: Vec<u32> = (0..k).map(|i| q_mul((i as u32) + 1, 7)).collect();
    let c2: Vec<u32> = (0..k)
        .map(|i| q_add(q_mul((i as u32) + 1, 13), 5))
        .collect();
    let h1 = hh.hash(&c1).unwrap();
    let h2 = hh.hash(&c2).unwrap();
    let (a, b) = (3u32, 5u32);
    let c_comb: Vec<u32> = (0..k)
        .map(|i| q_add(q_mul(a, c1[i]), q_mul(b, c2[i])))
        .collect();
    let h_comb = hh.hash(&c_comb).unwrap();
    let h_hom = HomomorphicHash::combine(a, h1, b, h2);
    assert_eq!(h_comb, h_hom, "homomorphism must hold over GF(Q)");
}

#[test]
fn combine_many_matches_direct_hash() {
    let k = 8;
    let hh = HomomorphicHash::new(k);
    let c1: Vec<u32> = (0..k).map(|i| q_mul((i as u32) + 2, 11)).collect();
    let h1 = hh.hash(&c1).unwrap();
    let a = 9u32;
    let scaled: Vec<u32> = (0..k).map(|i| q_mul(a, c1[i])).collect();
    let h_scaled = hh.hash(&scaled).unwrap();
    let h_hom = hh.combine_many(&[a], &[h1]);
    assert_eq!(h_scaled, h_hom);
}

#[test]
fn verify_coded_works() {
    let k = 8;
    let hh = HomomorphicHash::new(k);
    let unit_hashes: Vec<u128> = (0..k)
        .map(|i| {
            let mut e = vec![0u32; k];
            e[i] = 1;
            hh.hash(&e).unwrap()
        })
        .collect();
    let coded: Vec<u32> = vec![2, 0, 7, 0, 0, 1, 0, 3];
    let claimed = hh.hash(&coded).unwrap();
    assert!(verify_coded(&hh, &unit_hashes, &coded, claimed).unwrap());
    let bad: Vec<u32> = vec![2, 0, 7, 0, 0, 1, 0, 4];
    assert!(!verify_coded(&hh, &unit_hashes, &bad, claimed).unwrap());
}

#[test]
fn the_generator_is_as_it_should_be() {
    let g = subgroup_gen();
    assert_eq!(g, GENERATOR);
    let mut acc = 1u128;
    for _ in 0..Q {
        acc = acc * g % P;
    }
    assert_eq!(acc, 1);
    let hh = HomomorphicHash::new(3);
    assert_eq!(hh.hash(&[1, 0, 0]).unwrap(), g);
    assert_eq!(hh.hash(&[0, 0, 0]).unwrap(), 1);
}

#[test]
fn lengths_have_to_agree() {
    let hh = HomomorphicHash::new(3);
    let e = hh.hash(&[1, 2]).unwrap_err();
    assert!(matches!(e, HomoHashError::Length { .. }));
    assert!(e.message().starts_with("coefficient vector length mismatch: "));
}

// ---- graphs, rings and shards -----------------------------------------------
#[test]
fn connected_and_routes() {
    let g = CayleyGraph::fibonacci_jumps(128, 3);
    let p = g.shortest_path(0, 100).unwrap();
    assert_eq!(*p.last().unwrap(), 100);
    let d = g.diameter();
    assert!(d <= 8, "diameter {d} too large for n=128 degree 3");
}

#[test]
fn paths_have_the_least_length() {
    let g = CayleyGraph::new(10, vec![1, 3]);
    let p = g.shortest_path(0, 6).unwrap();
    assert_eq!(p.len(), 3);
    assert_eq!(p[0], 0);
    assert_eq!(p[2], 6);
    assert!(g.neighbors(0).contains(&3) && g.neighbors(0).contains(&7));
    let q = g.shortest_path(2, 8).unwrap();
    assert_eq!(q.len(), p.len());
    assert_eq!(g.shortest_path(4, 4).unwrap(), vec![4]);
    assert_eq!(g.greedy_route(0, 6).unwrap().last(), Some(&6));
}

#[test]
fn the_first_of_several_shortest_paths_is_taken() {
    let g = CayleyGraph::new(8, vec![1, 3]);
    assert_eq!(g.neighbors(0), vec![1, 7, 3, 5]);
    // 0-1-4, 0-7-4, 0-3-4 and 0-5-4 are all as short.
    assert_eq!(g.shortest_path(0, 4).unwrap(), vec![0, 1, 4]);
    assert_eq!(g.shortest_path(4, 0).unwrap(), vec![4, 5, 0]);
}

#[test]
fn routes_can_be_refused() {
    let g = CayleyGraph::new(10, vec![2]);
    let e = g.shortest_path(0, 10).unwrap_err();
    assert_eq!(e, CayleyError::OutOfRange { id: 10, n: 10 });
    let e = g.shortest_path(0, 5).unwrap_err();
    assert_eq!(e, CayleyError::NoPath { from: 0, to: 5 });
    assert!(!e.message().is_empty());
}

#[test]
fn gentler_than_exponential() {
    let mut b = FibBackoff::new(10, 1_000_000);
    for _ in 0..10 {
        b.on_success();
    }
    assert!(b.window() < 500, "fib window bounded {}", b.window());
}

#[test]
fn growth_follows_the_fibonacci_numbers() {
    let mut b = FibBackoff::new(10, 1_000_000);
    let mut seen = Vec::new();
    for _ in 0..5 {
        b.on_success();
        seen.push(b.window());
    }
    assert_eq!(seen, vec![11, 13, 16, 21, 29]);
    b.on_loss(14);
    assert_eq!(b.window(), 14);
    b.on_success();
    assert_eq!(b.window(), 15);
    b.on_timeout(10);
    assert_eq!(b.window(), 10);
    let mut capped = FibBackoff::new(10, 12);
    for _ in 0..9 {
        capped.on_success();
    }
    assert_eq!(capped.window(), 12);
}

#[test]
fn balanced_at_every_n() {
    let mut ring = GoldenRing::new();
    for i in 0..8 {
        ring.add(i);
    }
    let mut bins = [0u32; 8];
    for k in 0..1024 {
        if let Some(e) = ring.route(k) {
            bins[e as usize] += 1;
        }
    }
    let mean = 1024.0 / 8.0;
    let var: f64 = bins
        .iter()
        .map(|&c| {
            let d = c as f64 - mean;
            d * d
        })
        .sum::<f64>()
        / 8.0;
    let std = var.sqrt();
    assert!(
        std < mean * 0.25,
        "load imbalance too high: std={std} mean={mean}"
    );
}

#[test]
fn leaving_and_coming_move_few_keys() {
    let mut ring = GoldenRing::new();
    assert!(ring.is_empty());
    assert_eq!(ring.route(3), None);
    for i in 0..5 {
        ring.add(i);
    }
    assert_eq!(ring.len(), 5);
    let before: Vec<Option<u64>> = (0..500).map(|k| ring.route(k)).collect();
    ring.add(5);
    for k in 0..500 {
        let now = ring.route(k);
        assert!(now == before[k as usize] || now == Some(5));
    }
    assert!(ring.remove(5));
    assert!(!ring.remove(5));
    for k in 0..500 {
        assert_eq!(ring.route(k), before[k as usize]);
    }
    assert_eq!(placement_fixed(0), 0);
    assert_eq!(placement_fixed(1), 0x9E37_79B9_7F4A_7C15);
}

#[test]
fn distributes_consecutive_keys() {
    let b = 8;
    let mut seen = std::collections::HashSet::new();
    for i in 0..256u128 {
        seen.insert(fib_hash64(i, b));
    }
    assert!(
        seen.len() > 200,
        "consecutive keys should spread widely: {}",
        seen.len()
    );
}

#[test]
fn small_keys_do_not_collapse() {
    let b = 8;
    let shards: std::collections::HashSet<usize> =
        (0..64u128).map(|i| fib_hash64(i, b)).collect();
    assert!(shards.len() > 40, "small keys collapsed: {}", shards.len());
}

#[test]
fn keys_in_a_row_land_on_shards_of_their_own() {
    let hit = |n: u128| (0..n).map(|k| fib_hash64(k, 8)).collect::<std::collections::HashSet<usize>>();
    assert_eq!(hit(144).len(), 144);
    assert_eq!(hit(145).len(), 145);
    assert_eq!(hit(149).len(), 148);
    assert_eq!(hit(256).len(), 221);
}

#[test]
fn hashing_is_a_multiplication() {
    assert_eq!(GOLDEN64.wrapping_mul(GOLDEN64_INVERSE), 1);
    assert_eq!(golden_of(1), GOLDEN64);
    assert_eq!(fib_hash64_u64(1, 8), 0x9E);
    assert_eq!(fib_hash64(1, 8), 0x9E);
    assert_eq!(fib_hash64_u64(5, 64), 5u64.wrapping_mul(GOLDEN64) as usize);
}

// ---- the Fibonacci code -----------------------------------------------------
#[test]
fn roundtrip() {
    for n in [1u64, 2, 3, 7, 10, 100, 1_000_000, u64::MAX / 2] {
        let cw = zeck_encode(n);
        let nbits = codeword_nbits(&cw);
        let mut run = 0usize;
        let mut runs: Vec<(usize, usize)> = Vec::new();
        for b in 0..=nbits {
            let one = if b < nbits {
                (cw[b >> 3] >> (b & 7)) & 1
            } else {
                0
            };
            if one == 1 {
                run += 1;
            } else {
                if run > 0 {
                    runs.push((b - run, run));
                }
                run = 0;
            }
        }
        assert!(!runs.is_empty(), "codeword for {n} must have a terminator");
        assert_eq!(
            *runs.last().unwrap(),
            (nbits - 2, 2),
            "codeword for {n} should end in exactly one `11`"
        );
        for &(pos, len) in &runs[..runs.len() - 1] {
            assert_eq!(
                len, 1,
                "no internal `11` in codeword for {n}: run at {pos} len {len}"
            );
        }
        let (v, used) = zeck_decode(&cw).unwrap();
        assert_eq!(v, n);
        assert_eq!(used, nbits, "all packed bits consumed for {n}");
    }
}

#[test]
fn stream_roundtrip() {
    let mut s = ZeckStream::new();
    for n in [0u64, 1, 5, 9, 42, 1000] {
        s.push(n);
    }
    let buf = s.finish();
    let got = ZeckStream::decode_all(&buf);
    assert_eq!(got, vec![0, 1, 5, 9, 42, 1000]);
}

#[test]
fn codewords_are_the_known_ones() {
    assert_eq!(zeck_encode(1), vec![0b11]);
    assert_eq!(zeck_encode(2), vec![0b110]);
    assert_eq!(zeck_encode(4), vec![0b1101]);
    assert_eq!(zeck_decode(&[0b1101]), Some((4, 4)));
    assert_eq!(zeck_decode(&[0b0101]), None);
    assert_eq!(zeck_decode(&[]), None);
}

#[test]
fn repeated_symbols_do_not_crowd_out_others() {
    let survived = [(0, vec![5u8]), (0, vec![5]), (1, vec![7])];
    assert_eq!(rs::decode(2, 1, 1, &survived), Ok(vec![vec![5], vec![7]]));
    let few = [(0, vec![5u8]), (0, vec![5]), (0, vec![5])];
    assert_eq!(rs::decode(2, 1, 1, &few), Err(RsError::Insufficient { have: 1, need: 2 }));
}
