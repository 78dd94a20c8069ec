use meshdiff::mesh_diff::{Contiguous, Entry, MeshDiffer, MeshPatch};
use rand::random;

#[test]
fn test() {
    let mut plain: Vec<Vec<u8>> = vec![vec![]; 10];

    let mut delta: MeshDiffer = MeshDiffer::new();
    let mut follower: Vec<u8> = Vec::new();

    for i in 0..10000 {
        // randomly generate some modifications
        let mut scramble: Vec<(usize, Vec<u8>)> = Vec::new();
        for _index in 0..10 {
            if random::<bool>() {
                let len = random::<usize>() % 10;
                let mut bin: Vec<u8> = Vec::new();
                for _ in 0..len {
                    bin.push(random::<u8>());
                }
                scramble.push((len, bin));
            }
        }

        // apply them to plain
        for &(index, ref bin) in &scramble {
            plain[index] = bin.clone();
        }

        // stage them in delta
        for &(index, ref bin) in &scramble {
            delta.stage(index as u64, bin.iter().map(|&b| b as u64).collect());
        }

        // commit the change
        let patch = delta.commit();

        // apply the patch to follower
        while follower.len() > patch.new_len {
            follower.pop();
        }
        while follower.len() < patch.new_len {
            follower.push(0);
        }
        for (&index, &primitive) in patch.writes_indices.iter().zip(&patch.writes_data) {
            follower[index] = primitive as u8;
        }

        // compare the set of primitives in plain and follower
        let mut plain_indices: Vec<u8> = plain.iter().flatten().copied().collect();
        let mut follower_indices: Vec<u8> = follower.clone();
        plain_indices.sort();
        follower_indices.sort();

        // assert equality
        assert_eq!(
            plain_indices, follower_indices,
            "desynchronization on iteration {}",
            i
        );
    }
}

#[test]
fn scenario_two_keys_then_delete() {
    let mut d = MeshDiffer::new();
    d.stage(1, vec![10, 20]);
    d.stage(2, vec![30]);
    let patch = d.commit();
    assert_eq!(patch.new_len, 3);
    assert_eq!(patch.writes_data.len(), 3);
    assert_eq!(patch.writes_indices, vec![0, 1, 2]);
    let mut got = patch.writes_data.clone();
    got.sort();
    assert_eq!(got, vec![10, 20, 30]);

    d.stage(1, vec![]);
    let patch = d.commit();
    assert_eq!(patch.new_len, 1);
    assert_eq!(patch.writes_data.len(), 1);
    // the swap-removed survivor is written into the freed slot
    assert_eq!(patch.writes_indices, vec![0]);
    assert_eq!(patch.writes_data, vec![30]);
}

#[test]
fn scenario_duplicate_primitives_get_distinct_slots() {
    let mut d = MeshDiffer::new();
    d.stage(5, vec![7, 7]);
    let patch = d.commit();
    assert_eq!(patch.new_len, 2);
    assert_eq!(patch.writes_data, vec![7, 7]);
    assert_eq!(patch.writes_indices, vec![0, 1]);

    // dropping one copy must not drop both
    d.stage(5, vec![7]);
    let patch = d.commit();
    assert_eq!(patch.new_len, 1);
    assert_eq!(patch.writes_data.len(), 0);
}

#[test]
fn restage_same_multiset_writes_nothing() {
    let mut d = MeshDiffer::new();
    d.stage(3, vec![1, 2, 2]);
    let patch = d.commit();
    assert_eq!(patch.new_len, 3);
    // the same key restaged with the same multiset, in another order
    d.stage(3, vec![2, 1, 2]);
    let patch = d.commit();
    assert_eq!(patch.new_len, 3);
    assert_eq!(patch.writes_data.len(), 0);
    assert_eq!(patch.writes_indices.len(), 0);
}

#[test]
fn replacing_one_entry_reuses_its_slot() {
    let mut d = MeshDiffer::new();
    d.stage(1, vec![10]);
    let patch = d.commit();
    assert_eq!(patch.new_len, 1);
    d.stage(1, vec![11]);
    let patch = d.commit();
    // one added plus one removed, paired into a single in-place write
    assert_eq!(patch.new_len, 1);
    assert_eq!(patch.writes_data, vec![11]);
    assert_eq!(patch.writes_indices, vec![0]);
}

#[test]
fn staging_empty_key_on_empty_differ_is_noop() {
    let mut d = MeshDiffer::new();
    d.stage(9, vec![]);
    let patch = d.commit();
    assert_eq!(patch.new_len, 0);
    assert_eq!(patch.writes_data.len(), 0);
}

#[test]
fn untouched_keys_keep_their_slots() {
    let mut d = MeshDiffer::new();
    d.stage(1, vec![10]);
    d.stage(2, vec![20]);
    d.stage(3, vec![30]);
    let patch = d.commit();
    assert_eq!(patch.new_len, 3);
    let slot_of_30 = patch.writes_indices[patch.writes_data.iter().position(|&p| p == 30).unwrap()];
    // replace key 2 only; key 3's entry must stay where it is
    d.stage(2, vec![21]);
    let patch = d.commit();
    assert_eq!(patch.new_len, 3);
    assert_eq!(patch.writes_data.len(), 1);
    assert_eq!(patch.writes_data, vec![21]);
    assert!(patch.writes_indices[0] != slot_of_30);
}

#[test]
fn iter_contiguous_groups_maximal_runs() {
    let patch = MeshPatch {
        new_len: 10,
        writes_data: vec![100, 101, 102, 105, 106, 109],
        writes_indices: vec![0, 1, 2, 5, 6, 9],
    };
    let runs: Vec<Contiguous> = patch.iter_contiguous();
    assert_eq!(runs.len(), 3);
    assert_eq!(runs[0].src_start, 0);
    assert_eq!(runs[0].dst_start, 0);
    assert_eq!(runs[0].len, 3);
    assert_eq!(runs[1].src_start, 3);
    assert_eq!(runs[1].dst_start, 5);
    assert_eq!(runs[1].len, 2);
    assert_eq!(runs[2].src_start, 5);
    assert_eq!(runs[2].dst_start, 9);
    assert_eq!(runs[2].len, 1);
}

#[test]
fn iter_contiguous_empty_patch_has_no_runs() {
    let patch = MeshPatch { new_len: 4, writes_data: vec![], writes_indices: vec![] };
    let runs = patch.iter_contiguous();
    assert_eq!(runs.len(), 0);
}

#[test]
fn from_pairs_builds_committed_state() {
    let mut d = MeshDiffer::from_pairs(&vec![(1, 10), (2, 20), (1, 10)]);
    // nothing is staged, so an immediate commit changes nothing
    let patch = d.commit();
    assert_eq!(patch.new_len, 3);
    assert_eq!(patch.writes_data.len(), 0);
    // deleting key 1 removes both copies of its duplicated primitive
    d.stage(1, vec![]);
    let patch = d.commit();
    assert_eq!(patch.new_len, 1);
    assert_eq!(patch.writes_data, vec![20]);
    assert_eq!(patch.writes_indices, vec![0]);
}

#[test]
fn entries_carry_their_components() {
    let e = Entry::new(1, 42, 3);
    assert_eq!(e.primitive(), 42);
    assert_eq!(e, Entry { key: 1, prim: 42, ordinal: 3 });
}

#[test]
fn write_count_never_exceeds_added_plus_removed() {
    let mut d = MeshDiffer::new();
    d.stage(1, vec![1, 2, 3, 4]);
    let _ = d.commit();
    // replace four entries by two others: 2 added, 4 removed
    d.stage(1, vec![5, 6]);
    let patch = d.commit();
    assert_eq!(patch.new_len, 2);
    assert!(patch.writes_data.len() <= 6);
}
