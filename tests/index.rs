use ns_ann::error::LshError;
use ns_ann::index::LSHDB;
use ns_ann::lsh::{ConstructionMethod, RandomProjection, Sign, LSH};
use rand::rngs::StdRng;
use rand::{Rng, SeedableRng};
use rand_distr::StandardNormal;

use Sign::{Negative, Positive};

const V_DIM: usize = 16;
const N: usize = 1024;
const NB: usize = 4;

fn sign_of_dot(a: &[f32], b: &[f32]) -> Sign {
    let dot: f32 = a.iter().zip(b).fold(0.0f32, |acc, (x, y)| acc + x * y);
    if dot > 0.0 {
        Positive
    } else {
        Negative
    }
}

fn signs_of(h: &RandomProjection<f32>, q: &[f32]) -> Vec<Sign> {
    h.hyperplanes().iter().map(|p| sign_of_dot(q, p)).collect()
}

fn unit_vector<R: Rng>(rng: &mut R, dim: usize) -> Vec<f32> {
    let v: Vec<f32> = (0..dim).map(|_| rng.sample(StandardNormal)).collect();
    let norm = v.iter().map(|x| x * x).sum::<f32>().sqrt();
    v.into_iter().map(|x| x / norm).collect()
}

fn build_vectors<R: Rng>(rng: &mut R) -> Vec<(usize, [f32; V_DIM])> {
    let mut out = Vec::with_capacity(N);
    for i in 0..N {
        let mut v = [0.0f32; V_DIM];
        rng.fill(&mut v);
        out.push((i, v));
    }
    out
}

struct Built {
    db: LSHDB<usize, f32>,
    corpus_signs: Vec<Vec<Sign>>,
}

fn build_seeded(seed: u64, cm: ConstructionMethod, nb: usize) -> Built {
    let mut rng = StdRng::seed_from_u64(seed);
    let corpus = build_vectors(&mut rng);
    let hp: Vec<Vec<f32>> = (0..nb).map(|_| unit_vector(&mut rng, V_DIM)).collect();
    let h = RandomProjection::new(hp, cm).unwrap();
    let ids: Vec<usize> = corpus.iter().map(|(i, _)| *i).collect();
    let corpus_signs: Vec<Vec<Sign>> = corpus.iter().map(|(_, v)| signs_of(&h, v)).collect();
    let db = LSHDB::build(h, &ids, &corpus_signs).unwrap();
    Built { db, corpus_signs }
}

#[test]
fn test_lshdb() {
    let mut rng = rand::thread_rng();
    let v_set = build_vectors(&mut rng);
    let hp: Vec<Vec<f32>> = (0..NB).map(|_| unit_vector(&mut rng, V_DIM)).collect();
    let h = RandomProjection::new(hp, ConstructionMethod::Concatenate).unwrap();
    let ids: Vec<usize> = v_set.iter().map(|(i, _)| *i).collect();
    let signs: Vec<Vec<Sign>> = v_set.iter().map(|(_, v)| signs_of(&h, v)).collect();
    let db = LSHDB::build(h, &ids, &signs).unwrap();

    let (q_ident, q_vector) = v_set.get(0).unwrap();
    let q_signs = signs_of(db.hasher(), q_vector);
    assert_eq!(db.candidates(&q_signs).unwrap().iter().find(|&x| x == q_ident).is_some(), true);
}

#[test]
fn every_corpus_vector_retrieves_itself() {
    for cm in [ConstructionMethod::Concatenate, ConstructionMethod::Tree] {
        let b = build_seeded(7, cm, NB);
        for (i, s) in b.corpus_signs.iter().enumerate() {
            assert!(b.db.candidates(s).unwrap().contains(&i));
        }
    }
}

#[test]
fn ranges_partition_the_buffer() {
    let b = build_seeded(11, ConstructionMethod::Concatenate, NB);
    let table = b.db.bin_idx();
    assert_eq!(table.len(), 16);
    let mut total = 0;
    let mut seen = vec![false; N];
    let mut last_end = 0;
    for e in table.iter().flatten() {
        assert!(e.0 < e.1);
        assert!(last_end <= e.0);
        last_end = e.1;
        total += e.1 - e.0;
        for p in e.0..e.1 {
            assert!(!seen[p]);
            seen[p] = true;
        }
    }
    assert_eq!(total, 1024);
    assert!(seen.iter().all(|&x| x));
}

#[test]
fn buffer_is_a_permutation_grouped_stably() {
    let b = build_seeded(3, ConstructionMethod::Concatenate, NB);
    let mut sorted: Vec<usize> = b.db.buf().to_vec();
    sorted.sort();
    assert_eq!(sorted, (0..N).collect::<Vec<usize>>());
    let h = b.db.hasher();
    for (bin, e) in b.db.bin_idx().iter().enumerate() {
        if let Some((s, t)) = e {
            let expected: Vec<usize> =
                (0..N).filter(|&i| h.bin(&b.corpus_signs[i]) == bin).collect();
            assert_eq!(&b.db.buf()[*s..*t], &expected[..]);
        } else {
            assert!((0..N).all(|i| h.bin(&b.corpus_signs[i]) != bin));
        }
    }
}

#[test]
fn same_seed_builds_the_same_index() {
    let a = build_seeded(42, ConstructionMethod::Concatenate, NB);
    let b = build_seeded(42, ConstructionMethod::Concatenate, NB);
    assert_eq!(a.db.buf(), b.db.buf());
    assert_eq!(a.db.bin_idx(), b.db.bin_idx());
    let t1 = build_seeded(42, ConstructionMethod::Tree, 8);
    let t2 = build_seeded(42, ConstructionMethod::Tree, 8);
    assert_eq!(t1.db.buf(), t2.db.buf());
    assert_eq!(t1.db.bin_idx(), t2.db.bin_idx());
}

fn axis_index() -> LSHDB<usize, f32> {
    let hp: Vec<Vec<f32>> = (0..8).map(|_| vec![1.0, 0.0, 0.0, 0.0]).collect();
    let h = RandomProjection::new(hp, ConstructionMethod::Concatenate).unwrap();
    let corpus = [[-1.0f32, 0.0, 0.0, 0.0], [-2.0, 0.5, 0.0, 0.0]];
    let signs: Vec<Vec<Sign>> = corpus.iter().map(|v| signs_of(&h, v)).collect();
    LSHDB::build(h, &vec![10, 20], &signs).unwrap()
}

#[test]
fn empty_bin_gives_no_candidates() {
    let db = axis_index();
    assert_eq!(db.bin_idx().len(), 256);
    assert_eq!(db.bin_idx()[0], Some((0, 2)));
    let q = signs_of(db.hasher(), &[1.0, 0.0, 0.0, 0.0]);
    assert_eq!(db.hasher().bin(&q), 255);
    assert!(db.candidates(&q).unwrap().is_empty());
    assert_eq!(db.pick_random(&q, 12345).unwrap(), None);
    assert!(db.get(255).is_empty());
    assert!(db.get(1000).is_empty());
}

#[test]
fn pick_random_chooses_by_the_draw() {
    let db = axis_index();
    let q = signs_of(db.hasher(), &[-3.0, 0.0, 0.0, 0.0]);
    assert_eq!(db.candidates(&q).unwrap(), &[10, 20]);
    assert_eq!(db.pick_random(&q, 0).unwrap(), Some(&10));
    assert_eq!(db.pick_random(&q, 5).unwrap(), Some(&20));
}

#[test]
fn single_entry_fills_one_range() {
    let hp: Vec<Vec<f32>> = vec![vec![1.0, 0.0], vec![0.0, 1.0]];
    let h = RandomProjection::new(hp, ConstructionMethod::Concatenate).unwrap();
    let signs = vec![signs_of(&h, &[1.0, -1.0])];
    let db = LSHDB::build(h, &vec![7usize], &signs).unwrap();
    assert_eq!(db.buf(), &[7]);
    for (b, e) in db.bin_idx().iter().enumerate() {
        if b == 1 {
            assert_eq!(*e, Some((0, 1)));
        } else {
            assert_eq!(*e, None);
        }
    }
}

#[test]
fn empty_corpus_has_empty_bins() {
    let h = RandomProjection::new(vec![vec![1.0f32]], ConstructionMethod::Concatenate).unwrap();
    let db = LSHDB::<u32, f32>::build(h, &vec![], &vec![]).unwrap();
    assert!(db.buf().is_empty());
    assert_eq!(db.bin_idx(), &[None, None]);
}

#[test]
fn mismatched_shapes_are_refused() {
    let h = RandomProjection::new(vec![vec![1.0f32, 0.0]; 3], ConstructionMethod::Concatenate).unwrap();
    let r = LSHDB::build(h, &vec![1usize, 2], &vec![vec![Positive; 3]]);
    assert_eq!(r.err(), Some(LshError::ShapeMismatch));

    let h = RandomProjection::new(vec![vec![1.0f32, 0.0]; 3], ConstructionMethod::Concatenate).unwrap();
    let r = LSHDB::build(h, &vec![1usize], &vec![vec![Positive; 2]]);
    assert_eq!(r.err(), Some(LshError::ShapeMismatch));

    let h = RandomProjection::new(vec![vec![1.0f32, 0.0]; 3], ConstructionMethod::Concatenate).unwrap();
    let db = LSHDB::build(h, &vec![1usize], &vec![vec![Positive; 3]]).unwrap();
    assert_eq!(db.candidates(&[Positive]).err(), Some(LshError::ShapeMismatch));
    assert_eq!(db.pick_random(&[Positive; 4], 0).err(), Some(LshError::ShapeMismatch));
    assert_eq!(db.candidates(&[Positive; 3]).unwrap(), &[1]);
}
