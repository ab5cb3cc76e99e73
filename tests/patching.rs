use romtools::patch::{
    build_op_patches, find_resource, patch_resource, ArrayPatch, FindError, OwnedPatternPatch,
    Patch, PatchError, PatternPatch, ResourcePatch,
};

fn count(data: &[u8], pat: &[u8]) -> usize {
    (0..=data.len() - pat.len()).filter(|&i| data[i..].starts_with(pat)).count()
}

#[test]
fn exact_patch_writes_after() {
    let mut data = vec![0u8, 1, 2, 3, 4];
    let p = Patch { addr: 1, before: &[1, 2], after: &[9, 8] };
    assert_eq!(p.apply(&mut data), Ok(()));
    assert_eq!(data, vec![0, 9, 8, 3, 4]);
}

#[test]
fn exact_patch_shorter_after_writes_prefix_only() {
    let mut data = vec![0u8, 1, 2, 3, 4];
    let p = Patch { addr: 2, before: &[2, 3], after: &[7] };
    assert_eq!(p.apply(&mut data), Ok(()));
    assert_eq!(data, vec![0, 1, 7, 3, 4]);
}

#[test]
fn exact_patch_mismatch_leaves_buffer() {
    let mut data = vec![0u8, 1, 2, 3, 4];
    let p = Patch { addr: 1, before: &[1, 3], after: &[9, 9] };
    assert_eq!(
        p.apply(&mut data),
        Err(PatchError::Mismatch { addr: 1, expected: vec![1, 3], actual: vec![1, 2] })
    );
    assert_eq!(data, vec![0, 1, 2, 3, 4]);
}

#[test]
fn exact_patch_out_of_bounds() {
    let mut data = vec![0u8, 1, 2];
    let p = Patch { addr: 2, before: &[2, 3], after: &[9, 9] };
    assert_eq!(p.apply(&mut data), Err(PatchError::OutOfBounds { addr: 2, len: 2 }));
    let p = Patch { addr: 7, before: &[], after: &[] };
    assert_eq!(p.apply(&mut data), Err(PatchError::OutOfBounds { addr: 7, len: 0 }));
    assert_eq!(data, vec![0, 1, 2]);
}

#[test]
fn exact_patch_longer_after_is_refused() {
    let mut data = vec![0u8, 1, 2];
    let p = Patch { addr: 0, before: &[0], after: &[5, 5] };
    assert_eq!(p.apply(&mut data), Err(PatchError::LengthMismatch { before: 1, after: 2 }));
    assert_eq!(data, vec![0, 1, 2]);
}

#[test]
fn exact_patch_twice_fails_second_time() {
    let mut data = vec![0x4eu8, 0xb9, 0x00, 0x40, 0x12, 0x34];
    let p = Patch { addr: 2, before: &[0x00, 0x40], after: &[0x00, 0xf8] };
    assert_eq!(p.apply(&mut data), Ok(()));
    assert_eq!(
        p.apply(&mut data),
        Err(PatchError::Mismatch {
            addr: 2,
            expected: vec![0x00, 0x40],
            actual: vec![0x00, 0xf8]
        })
    );
    assert_eq!(data, vec![0x4e, 0xb9, 0x00, 0xf8, 0x12, 0x34]);
}

#[test]
fn pattern_patch_replaces_every_occurrence() {
    let mut data = vec![1u8, 2, 0, 1, 2, 1, 2];
    let p = PatternPatch { pattern: &[1, 2], replacement: &[7, 7] };
    assert_eq!(p.apply(&mut data), Ok(vec![0, 3, 5]));
    assert_eq!(data, vec![7, 7, 0, 7, 7, 7, 7]);
}

#[test]
fn pattern_patch_reaches_last_offset() {
    let mut data = vec![0u8, 0, 5, 6];
    let p = PatternPatch { pattern: &[5, 6], replacement: &[8, 9] };
    assert_eq!(p.apply(&mut data), Ok(vec![2]));
    assert_eq!(data, vec![0, 0, 8, 9]);
}

#[test]
fn pattern_patch_no_match_is_fine() {
    let mut data = vec![1u8, 2, 3];
    let p = PatternPatch { pattern: &[4], replacement: &[5] };
    assert_eq!(p.apply(&mut data), Ok(vec![]));
    assert_eq!(data, vec![1, 2, 3]);
    let p = PatternPatch { pattern: &[1, 2, 3, 4], replacement: &[5, 5, 5, 5] };
    assert_eq!(p.apply(&mut data), Ok(vec![]));
    assert_eq!(data, vec![1, 2, 3]);
}

#[test]
fn pattern_patch_length_mismatch_writes_nothing() {
    let mut data = vec![1u8, 2, 3];
    let p = PatternPatch { pattern: &[1, 2], replacement: &[5] };
    assert_eq!(p.apply(&mut data), Err(PatchError::LengthMismatch { before: 2, after: 1 }));
    assert_eq!(data, vec![1, 2, 3]);
}

#[test]
fn pattern_patch_sees_its_own_edits() {
    let mut data = vec![0xau8, 0xa, 0xa];
    let p = PatternPatch { pattern: &[0xa, 0xa], replacement: &[0xb, 0xa] };
    assert_eq!(p.apply(&mut data), Ok(vec![0, 1]));
    assert_eq!(data, vec![0xb, 0xb, 0xa]);
}

#[test]
fn pattern_patch_leaves_fewer_occurrences() {
    let mut data = vec![0x0cu8, 0x80, 0x00, 0x40, 0x00, 0x40, 0x00, 0x40, 0x11];
    let pat = [0x00u8, 0x40];
    let before = count(&data, &pat);
    let p = PatternPatch { pattern: &pat, replacement: &[0x00, 0xf8] };
    let hits = p.apply(&mut data).unwrap();
    assert_eq!(hits, vec![2, 4, 6]);
    assert!(count(&data, &pat) < before);
    for h in hits {
        assert_eq!(&data[h..h + 2], &[0x00, 0xf8]);
    }
}

#[test]
fn owned_pattern_patch_behaves_as_borrowed() {
    let owned = OwnedPatternPatch { pattern: vec![3, 4], replacement: vec![5, 6] };
    let borrowed = owned.to_pattern_patch();
    assert_eq!(borrowed.pattern, &[3, 4]);
    assert_eq!(borrowed.replacement, &[5, 6]);
    let mut data = vec![3u8, 4, 3, 4];
    assert_eq!(owned.apply(&mut data), Ok(vec![0, 2]));
    assert_eq!(data, vec![5, 6, 5, 6]);
}

#[test]
fn array_patch_touches_every_site() {
    let mut data = vec![0u8; 12];
    for i in [1, 5, 9] {
        data[i] = 0x40;
    }
    let p = ArrayPatch { start_addr: 1, end_addr: 9, step: 4, before: &[0x40], after: &[0xf8] };
    assert_eq!(p.apply(&mut data), Ok(vec![1, 5, 9]));
    assert_eq!(data[1], 0xf8);
    assert_eq!(data[5], 0xf8);
    assert_eq!(data[9], 0xf8);
}

#[test]
fn array_patch_site_count_rounds_down() {
    let mut data = vec![0x43u8; 40];
    let p = ArrayPatch { start_addr: 3, end_addr: 30, step: 6, before: &[0x43], after: &[0xfb] };
    let sites = p.apply(&mut data).unwrap();
    assert_eq!(sites.len(), (30 - 3) / 6 + 1);
    assert_eq!(sites, vec![3, 9, 15, 21, 27]);
}

#[test]
fn array_patch_stops_at_first_failure() {
    let mut data = vec![0x40u8, 0, 0x11, 0, 0x40, 0];
    let p = ArrayPatch { start_addr: 0, end_addr: 4, step: 2, before: &[0x40], after: &[0xf8] };
    assert_eq!(
        p.apply(&mut data),
        Err(PatchError::Mismatch { addr: 2, expected: vec![0x40], actual: vec![0x11] })
    );
    assert_eq!(data, vec![0xf8, 0, 0x11, 0, 0x40, 0]);
}

#[test]
fn array_patch_empty_range() {
    let mut data = vec![1u8, 2];
    let p = ArrayPatch { start_addr: 5, end_addr: 4, step: 1, before: &[9], after: &[9] };
    assert_eq!(p.apply(&mut data), Ok(vec![]));
    assert_eq!(data, vec![1, 2]);
}

fn signature(prefix: &[u8], tag: &[u8], id: i16) -> Vec<u8> {
    let mut v = prefix.to_vec();
    v.extend_from_slice(tag);
    v.extend_from_slice(&id.to_be_bytes());
    v
}

#[test]
fn find_resource_single_match() {
    let mut data = vec![0u8; 7];
    data.extend(signature(&[0x60, 0x00, 0x06, 0xe6], b"ptch", 34));
    data.extend([1, 2, 3]);
    assert_eq!(find_resource(&[0x60, 0x00, 0x06, 0xe6], "ptch", 34, &data), Ok(7));
}

#[test]
fn find_resource_not_found() {
    let data = vec![0u8; 40];
    assert_eq!(find_resource(&[0x60, 0x00, 0x06, 0xe6], "ptch", 34, &data), Err(FindError::NotFound));
    assert_eq!(find_resource(&[0x60, 0x00, 0x06, 0xe6], "ptch", 34, &[]), Err(FindError::NotFound));
}

#[test]
fn find_resource_ambiguous_lists_both() {
    let sig = signature(&[0x60, 0x00, 0x44, 0xa2], b"PTCH", 117);
    let mut data = vec![0u8; 3];
    data.extend(&sig);
    data.extend([9u8; 5]);
    data.extend(&sig);
    assert_eq!(
        find_resource(&[0x60, 0x00, 0x44, 0xa2], "PTCH", 117, &data),
        Err(FindError::Ambiguous(vec![3, 18]))
    );
}

#[test]
fn find_resource_at_very_end() {
    let data = signature(&[1, 2, 3, 4], b"CACH", 1);
    assert_eq!(find_resource(&[1, 2, 3, 4], "CACH", 1, &data), Ok(0));
}

#[test]
fn find_resource_negative_id() {
    let mut data = vec![0u8; 2];
    data.extend(signature(&[1, 2, 3, 4], b"CODE", -2));
    assert_eq!(find_resource(&[1, 2, 3, 4], "CODE", -2, &data), Ok(2));
}

#[test]
fn find_resource_boot_uses_boot_block_signature() {
    let mut data = vec![0u8; 4];
    data.extend([0x4c, 0x4b, 0x60, 0x00, 0x00, 0x86, 0x00, 0x17, 0x00, 0x00]);
    data.extend(signature(&[0x4c, 0x4b, 0x60, 0x00], b"boot", 1));
    assert_eq!(find_resource(&[0x4c, 0x4b, 0x60, 0x00], "boot", 1, &data), Ok(4));
}

#[test]
fn op_patches_cover_every_pair_in_order() {
    let prefixes: [&[u8]; 2] = [&[0x4e, 0xb9], &[0x41, 0xf9]];
    let suffixes: [(&[u8], &[u8]); 2] = [(&[0x00, 0x40], &[0x00, 0xf8]), (&[0x00, 0x41], &[0x00, 0xf9])];
    let ps = build_op_patches(&prefixes, &suffixes);
    assert_eq!(ps.len(), 4);
    assert_eq!(ps[0].pattern, vec![0x4e, 0xb9, 0x00, 0x40]);
    assert_eq!(ps[0].replacement, vec![0x4e, 0xb9, 0x00, 0xf8]);
    assert_eq!(ps[1].pattern, vec![0x4e, 0xb9, 0x00, 0x41]);
    assert_eq!(ps[1].replacement, vec![0x4e, 0xb9, 0x00, 0xf9]);
    assert_eq!(ps[2].pattern, vec![0x41, 0xf9, 0x00, 0x40]);
    assert_eq!(ps[3].replacement, vec![0x41, 0xf9, 0x00, 0xf9]);
}

#[test]
fn resource_patch_with_exact_patches() {
    let patches = [Patch { addr: 1, before: &[0x00, 0x40], after: &[0x00, 0xf8] }];
    let res = ResourcePatch {
        res_type: "boot",
        res_id: 1,
        patches: Some(&patches),
        length: 4,
        prefix: &[0x4c, 0x4b, 0x60, 0x00],
    };
    let mut data = vec![0x11u8, 0x00, 0x40, 0x22];
    assert_eq!(res.patch_data(&[], &mut data), Ok(()));
    assert_eq!(data, vec![0x11, 0x00, 0xf8, 0x22]);
}

#[test]
fn resource_patch_with_generic_patches() {
    let prefixes: [&[u8]; 1] = [&[0x4e, 0xf9]];
    let suffixes: [(&[u8], &[u8]); 1] = [(&[0x00, 0x40], &[0x00, 0xf8])];
    let ops = build_op_patches(&prefixes, &suffixes);
    let table = [
        ResourcePatch { res_type: "PTCH", res_id: 117, patches: None, length: 8, prefix: &[0, 0, 0, 0] },
    ];
    let mut data = vec![0x4eu8, 0xf9, 0x00, 0x40, 0x12, 0x34, 0x00, 0x40];
    assert_eq!(patch_resource(&table, &ops, "PTCH", 117, &mut data), Ok(()));
    assert_eq!(data, vec![0x4e, 0xf9, 0x00, 0xf8, 0x12, 0x34, 0x00, 0x40]);
}

#[test]
fn resource_patch_unknown_resource() {
    let table = [
        ResourcePatch { res_type: "PTCH", res_id: 117, patches: None, length: 8, prefix: &[0, 0, 0, 0] },
    ];
    let mut data = vec![1u8, 2, 3];
    assert_eq!(patch_resource(&table, &[], "PTCH", 630, &mut data), Err(PatchError::UnknownResource));
    assert_eq!(patch_resource(&table, &[], "ptch", 117, &mut data), Err(PatchError::UnknownResource));
    assert_eq!(data, vec![1, 2, 3]);
}

#[test]
fn resource_patch_failure_reports_error() {
    let patches = [
        Patch { addr: 0, before: &[0x40], after: &[0xf8] },
        Patch { addr: 1, before: &[0x40], after: &[0xf8] },
    ];
    let table = [ResourcePatch {
        res_type: "CACH",
        res_id: 1,
        patches: Some(&patches),
        length: 2,
        prefix: &[0, 0, 0, 0],
    }];
    let mut data = vec![0x40u8, 0x41];
    assert_eq!(
        patch_resource(&table, &[], "CACH", 1, &mut data),
        Err(PatchError::Mismatch { addr: 1, expected: vec![0x40], actual: vec![0x41] })
    );
}
