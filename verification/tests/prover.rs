use risc0_zkp::baby_bear::{BabyBearElem, BabyBearExtElem, P};
use risc0_zkp::circuit::CombiningCircuit;
use risc0_zkp::cpu::{reverse_piece, CpuBuffer, CpuHal};
use risc0_zkp::field::{power, Elem, ExtElem, Field, RootsOfUnity};
use risc0_zkp::hal::{Buffer, Hal};
use risc0_zkp::iop::WriteIOP;
use risc0_zkp::merkle::MerkleTreeProver;
use risc0_zkp::poly::poly_eval;
use risc0_zkp::prover::{make_coeffs, Prover};
use risc0_zkp::sha::{xor_digests, Digest, Sha};
use risc0_zkp::sha256::Sha256;
use risc0_zkp::taps::{TapData, TapSet};

const TAPS: [TapData; 4] = [
    TapData { offset: 0, back: 0, combo: 0, skip: 1 },
    TapData { offset: 0, back: 0, combo: 1, skip: 2 },
    TapData { offset: 0, back: 1, combo: 1, skip: 0 },
    TapData { offset: 1, back: 0, combo: 0, skip: 1 },
];

fn tap_set(combo_taps: &'static [u16]) -> TapSet<'static> {
    TapSet {
        taps: &TAPS,
        combo_taps,
        combo_begin: &[0, 1, 3],
        group_begin: &[0, 1, 4],
        group_names: &["accum", "data"],
    }
}

fn hal() -> CpuHal<Sha256> {
    CpuHal { sha: Sha256 }
}

fn elem(n: u64) -> BabyBearElem {
    BabyBearElem::from_u64(n)
}

fn buffer(values: Vec<BabyBearElem>) -> CpuBuffer<BabyBearElem> {
    CpuBuffer { data: values }
}

/// One column for the first group and two for the second.
fn columns(cycles: u64) -> (CpuBuffer<BabyBearElem>, CpuBuffer<BabyBearElem>) {
    let accum = (0..cycles).map(|i| elem(7 * i + 1)).collect();
    let mut data: Vec<BabyBearElem> = (0..cycles).map(|i| elem(i * i + 3)).collect();
    data.extend((0..cycles).map(|i| elem(P as u64 - 1 - i)));
    (buffer(accum), buffer(data))
}

fn prove(po2: usize) -> Vec<u32> {
    let hal = hal();
    let taps = tap_set(&[0, 0, 1]);
    let mut prover = Prover::new(&hal, &Sha256, &taps);
    prover.set_po2(po2);
    let (accum, data) = columns(1 << po2);
    prover.commit_group(1, data);
    prover.commit_group(0, accum);
    prover.finalize(&[], &CombiningCircuit)
}

#[test]
fn sha256_standard_vectors() {
    assert_eq!(
        Sha256.hash_bytes(b"").words,
        [0xe3b0c442, 0x98fc1c14, 0x9afbf4c8, 0x996fb924, 0x27ae41e4, 0x649b934c, 0xa495991b, 0x7852b855]
    );
    assert_eq!(
        Sha256.hash_bytes(b"abc").words,
        [0xba7816bf, 0x8f01cfea, 0x414140de, 0x5dae2223, 0xb00361a3, 0x96177a9c, 0xb410ff61, 0xf20015ad]
    );
    assert_eq!(
        Sha256.hash_bytes(b"abcdbcdecdefdefgefghfghighijhijkijkljklmklmnlmnomnopnopq").words,
        [0x248d6a61, 0xd20638b8, 0xe5c02693, 0x0c3e6039, 0xa33ce459, 0x64ff2167, 0xf6ecedd4, 0x19db06c1]
    );
}

#[test]
fn sha256_of_words_and_pairs() {
    assert_eq!(
        Sha256.hash_raw_pod_slice(&[1, 2, 3]).words,
        [1119482624, 1095076559, 255344013, 3645849179, 2343226488, 2073565851, 3831538196, 1031519882]
    );
    let pair = Sha256.hash_pair(&Sha256.hash_bytes(b"Hello"), &Sha256.hash_bytes(b"World"));
    assert_eq!(
        pair.words,
        [331526264, 3703792622, 3291863086, 306393615, 3183101353, 676455435, 3301889094, 770131201]
    );
    // The last block is filled up with zeros.
    assert_eq!(
        Sha256.hash_raw_pod_slice(&[1, 2, 3]).words,
        Sha256.hash_raw_pod_slice(&[1, 2, 3, 0]).words
    );
}

#[test]
fn digests_are_combined_by_exclusive_or() {
    let a = Digest { words: [1, 2, 3, 4, 5, 6, 7, 8] };
    let b = Digest { words: [8, 7, 6, 5, 4, 3, 2, 1] };
    assert_eq!(xor_digests(&a, &b).words, [9, 5, 5, 1, 1, 5, 5, 9]);
}

#[test]
fn first_challenge() {
    let mut iop = WriteIOP::new(&Sha256);
    let x: BabyBearExtElem = iop.random();
    assert_eq!(x.to_u32_words(), vec![1440074871, 1345661891, 1813558472, 1865121134]);
}

#[test]
fn only_commitments_influence_challenges() {
    let mut plain = WriteIOP::new(&Sha256);
    let mut writing = WriteIOP::new(&Sha256);
    let mut committing = WriteIOP::new(&Sha256);
    writing.write_field_elem_slice(&[elem(1), elem(2)]);
    committing.commit(&Sha256.hash_bytes(b"abc"));
    let a: BabyBearElem = plain.random();
    let b: BabyBearElem = writing.random();
    let c: BabyBearElem = committing.random();
    assert_eq!(a, b);
    assert_ne!(a, c);
    assert_eq!(writing.proof, vec![1, 2]);
    assert!(committing.proof.is_empty());
}

#[test]
fn seals_have_their_exact_words() {
    let seal = prove(1);
    assert_eq!(seal.len(), 2334);
    assert_eq!(seal[..4], [3708220087, 3182079143, 2083028934, 3936117559]);
    assert_eq!(seal[seal.len() - 3..], [2476452146, 3607294179, 703895570]);
    assert_eq!(
        Sha256.hash_raw_pod_slice(&seal).words,
        [3847247138, 1655618916, 3148060695, 985900998, 1724625106, 1805342903, 1969679758, 4023006099]
    );
    let seal = prove(3);
    assert_eq!(seal.len(), 2646);
    assert_eq!(seal[..4], [1780541627, 3785100263, 294478630, 656516130]);
    assert_eq!(
        Sha256.hash_raw_pod_slice(&seal).words,
        [1231482887, 3265845411, 1461193932, 1684439987, 4086543310, 2794527843, 3604776578, 1041821601]
    );
}

#[test]
fn long_traces_are_folded() {
    let seal = prove(9);
    assert_eq!(seal.len(), 13382);
    assert_eq!(seal[..4], [4104387586, 3782636193, 2743276621, 186995894]);
    assert_eq!(seal[seal.len() - 3..], [4013056237, 453907469, 2152391471]);
    assert_eq!(
        Sha256.hash_raw_pod_slice(&seal).words,
        [3183714606, 1635799560, 464355102, 1477256800, 2857616412, 1471519731, 584381198, 1325661804]
    );
}

#[test]
fn seal_starts_with_what_was_written_before() {
    let hal = hal();
    let taps = tap_set(&[0, 0, 1]);
    let mut prover = Prover::new(&hal, &Sha256, &taps);
    prover.set_po2(2);
    let (accum, data) = columns(4);
    prover.iop().write_field_elem_slice(&[elem(11), elem(22)]);
    prover.commit_group(0, accum);
    let after_accum = prover.iop().proof.clone();
    assert_eq!(after_accum[..2], [11, 22]);
    // Half of the sixteen leaves is written when a tree is committed to.
    assert_eq!(after_accum.len(), 2 + 8 * 8);
    prover.commit_group(1, data);
    let before = prover.iop().proof.clone();
    assert_eq!(before[..after_accum.len()], after_accum[..]);
    let seal = prover.finalize(&[], &CombiningCircuit);
    assert_eq!(seal[..before.len()], before[..]);
}

#[test]
fn order_of_commitments_changes_only_the_transcript() {
    let hal = hal();
    let taps = tap_set(&[0, 0, 1]);
    let mut trees = Vec::new();
    for order in [[0usize, 1], [1, 0]] {
        let mut prover = Prover::new(&hal, &Sha256, &taps);
        prover.set_po2(2);
        let mut words = vec![vec![], vec![]];
        for g in order {
            let (accum, data) = columns(4);
            let before = prover.iop().proof.len();
            prover.commit_group(g, if g == 0 { accum } else { data });
            words[g] = prover.iop().proof[before..].to_vec();
        }
        assert!(prover.try_finalize(&[], &CombiningCircuit).is_some());
        trees.push(words);
    }
    assert_eq!(trees[0], trees[1]);
}

#[test]
fn inconsistent_taps_cannot_be_proved() {
    // The registers of the second combination are read at distances 0 and 1,
    // but divided by the points at distances 0 and 2.
    let hal = hal();
    let taps = tap_set(&[0, 0, 2]);
    let mut prover = Prover::new(&hal, &Sha256, &taps);
    prover.set_po2(3);
    let (accum, data) = columns(8);
    prover.commit_group(0, accum);
    prover.commit_group(1, data);
    assert!(prover.try_finalize(&[], &CombiningCircuit).is_none());
}

#[test]
fn consistent_taps_can_be_proved() {
    let hal = hal();
    let taps = tap_set(&[0, 0, 1]);
    let mut prover = Prover::new(&hal, &Sha256, &taps);
    prover.set_po2(3);
    let (accum, data) = columns(8);
    prover.commit_group(1, data);
    prover.commit_group(0, accum);
    assert_eq!(prover.try_finalize(&[], &CombiningCircuit), Some(prove(3)));
}

#[test]
fn committed_polynomials_take_the_values_of_the_trace() {
    let hal = hal();
    let (_, data) = columns(8);
    let values = data.to_vec();
    let coeffs = make_coeffs(&hal, data, 2).to_vec();
    let third = elem(3).inv();
    let root = BabyBearElem::rou_fwd(3);
    for k in 0..2 {
        let poly = reverse_piece(&coeffs[8 * k..8 * k + 8]);
        for i in 0..8 {
            let x = power(root, i as u128).times(third);
            assert_eq!(poly_eval(&poly, x), values[8 * k + i]);
        }
    }
}

#[test]
fn tap_set_lookups() {
    let taps = tap_set(&[0, 0, 1]);
    assert_eq!(taps.num_groups(), 2);
    assert_eq!(taps.group_name(1), "data");
    assert_eq!(taps.group_size(0), 1);
    assert_eq!(taps.group_size(1), 2);
    assert_eq!(taps.combos_size(), 2);
    let regs: Vec<(usize, usize, usize)> =
        taps.regs().iter().map(|r| (r.pos, r.size(), r.combo_id())).collect();
    assert_eq!(regs, vec![(0, 1, 0), (1, 2, 1), (3, 1, 0)]);
}

#[test]
fn opened_rows_hash_up_to_the_committed_layer() {
    let hal = hal();
    let rows = 128usize;
    let matrix: Vec<BabyBearElem> = (0..2 * rows as u64).map(|i| elem(i * i)).collect();
    let tree = MerkleTreeProver::new(&hal, buffer(matrix.clone()), rows, 2);
    let mut iop = WriteIOP::new(&Sha256);
    tree.commit(&hal, &mut iop);
    assert_eq!(iop.proof.len(), 32 * 8);
    let top = iop.proof.clone();
    for idx in [0usize, 1, 77, 127] {
        let before = iop.proof.len();
        tree.prove(&hal, &mut iop, idx);
        let opened = iop.proof[before..].to_vec();
        // Two entries, then the siblings on two layers.
        assert_eq!(opened.len(), 2 + 2 * 8);
        assert_eq!(opened[0], matrix[idx].value);
        assert_eq!(opened[1], matrix[rows + idx].value);
        let mut digest = Sha256.hash_raw_pod_slice(&opened[..2]);
        let mut node = rows + idx;
        for path in opened[2..].chunks(8) {
            let mut words = [0u32; 8];
            words.copy_from_slice(path);
            let sibling = Digest { words };
            digest = if node % 2 == 0 {
                Sha256.hash_pair(&digest, &sibling)
            } else {
                Sha256.hash_pair(&sibling, &digest)
            };
            node /= 2;
        }
        assert_eq!(digest.words[..], top[8 * (node - 32)..8 * (node - 32) + 8]);
    }
}

#[test]
fn folding_keeps_the_value() {
    let hal = hal();
    let n = 4usize;
    let coeffs: Vec<BabyBearElem> = (0..4 * 16 * n as u64).map(|i| elem(i * i + 1)).collect();
    let x = BabyBearExtElem {
        c0: elem(5),
        c1: elem(6),
        c2: elem(7),
        c3: elem(8),
    };
    let mut out = buffer(vec![elem(0); 4 * n]);
    hal.fri_fold(&mut out, &buffer(coeffs.clone()), &x);
    let read = |data: &[BabyBearElem], n: usize| -> Vec<BabyBearExtElem> {
        let values: Vec<BabyBearExtElem> = (0..n)
            .map(|i| BabyBearExtElem::from_subelems(&(0..4).map(|e| data[e * n + i]).collect()))
            .collect();
        reverse_piece(&values)
    };
    let f = read(&coeffs, 16 * n);
    let g = read(&out.to_vec(), n);
    assert_eq!(poly_eval(&g, power(x, 16)), poly_eval(&f, x));
}
