use rayon_subslice::concat_slices;
use rayon_subslice::par_concat_slices;
use rayon_subslice::split_buffer_by_offsets;
use rayon_subslice::split_slice_mut;
use rayon_subslice::unsafe_concat_slices;
use rayon_subslice::unsafe_par_concat_slices;
use rayon_subslice::SubSlices;

#[test]
fn test1() {
    let rv = concat_slices(&[&"abc".chars().map(|c| c as u8).collect::<Vec<_>>()[..]][..]);
    let rv = rv.iter().map(|c| *c as char).collect::<String>();
    assert_eq!(rv, "abc");
}

#[test]
fn test3() {
    let s = "abc1234XY";
    let data = s.chars().map(|c| c as u8).collect::<Vec<_>>();
    let rv = concat_slices(&[&data[0..3], &data[3..4], &data[4..7], &data[7..9]][..]);
    let rv = rv.iter().map(|c| *c as char).collect::<String>();
    assert_eq!(s, rv);
}

#[test]
fn concat_of_no_sources_is_empty() {
    let sources: [&[u8]; 0] = [];
    assert_eq!(concat_slices(&sources[..]), Vec::<u8>::new());
    assert_eq!(unsafe_concat_slices(&sources[..]), Vec::<u8>::new());
    assert_eq!(par_concat_slices(&sources[..]), Vec::<u8>::new());
    assert_eq!(unsafe_par_concat_slices(&sources[..]), Vec::<u8>::new());
}

#[test]
fn concat_of_all_empty_sources_is_empty() {
    let empty: [u16; 0] = [];
    let sources: [&[u16]; 4] = [&empty, &empty, &empty, &empty];
    assert_eq!(concat_slices(&sources[..]), Vec::<u16>::new());
    assert_eq!(unsafe_concat_slices(&sources[..]), Vec::<u16>::new());
    assert_eq!(par_concat_slices(&sources[..]), Vec::<u16>::new());
    assert_eq!(unsafe_par_concat_slices(&sources[..]), Vec::<u16>::new());
}

#[test]
fn variants_agree_on_mixed_input() {
    let backing: Vec<u8> = (0..64).collect();
    let empty: [u8; 0] = [];
    let sources: [&[u8]; 6] = [
        &empty,
        &backing[0..10],
        &backing[10..11],
        &empty,
        &backing[11..40],
        &backing[40..64],
    ];
    let expected: Vec<u8> = (0..64).collect();
    assert_eq!(concat_slices(&sources[..]), expected);
    assert_eq!(unsafe_concat_slices(&sources[..]), expected);
    assert_eq!(par_concat_slices(&sources[..]), expected);
    assert_eq!(unsafe_par_concat_slices(&sources[..]), expected);
}

#[test]
fn split_by_offsets_covers_the_buffer_exactly() {
    let data: Vec<u32> = vec![10, 11, 12, 13, 14, 15, 16, 17, 18];
    let idxs: [usize; 5] = [0, 3, 4, 7, 9];
    let views = split_buffer_by_offsets(&idxs[..], data.clone());
    assert_eq!(views.len(), 4);
    assert_eq!(views[0], vec![10, 11, 12]);
    assert_eq!(views[1], vec![13]);
    assert_eq!(views[2], vec![14, 15, 16]);
    assert_eq!(views[3], vec![17, 18]);
    let lens: Vec<usize> = views.iter().map(|v| v.len()).collect();
    assert_eq!(lens, vec![3, 1, 3, 2]);
    let rejoined: Vec<u32> = views.iter().flat_map(|v| v.iter().copied()).collect();
    assert_eq!(rejoined, data);
}

#[test]
fn split_by_offsets_then_independent_writes_keep_order() {
    let data: Vec<u32> = vec![0; 9];
    let idxs: [usize; 5] = [0, 3, 4, 7, 9];
    let mut views = split_buffer_by_offsets(&idxs[..], data);
    for (k, view) in views.iter_mut().enumerate() {
        for (i, slot) in view.iter_mut().enumerate() {
            *slot = (k as u32) * 10 + (i as u32);
        }
    }
    let rejoined: Vec<u32> = views.iter().flat_map(|v| v.iter().copied()).collect();
    assert_eq!(rejoined, vec![0, 1, 2, 10, 20, 21, 22, 30, 31]);
}

#[test]
fn split_pairs_match_their_sources() {
    let data: Vec<u8> = vec![9; 6];
    let s1: [u8; 2] = [1, 2];
    let s2: [u8; 0] = [];
    let s3: [u8; 4] = [3, 4, 5, 6];
    let sources: [&[u8]; 3] = [&s1, &s2, &s3];
    let idxs: [usize; 4] = [0, 2, 2, 6];
    let pairs = split_slice_mut(&idxs[..], &sources[..], data);
    assert_eq!(pairs.len(), 3);
    for (k, (dest, src)) in pairs.iter().enumerate() {
        assert_eq!(dest.len(), src.len());
        assert_eq!(*src, sources[k]);
    }
    assert_eq!(pairs[0].0, vec![9, 9]);
    assert_eq!(pairs[1].0, Vec::<u8>::new());
    assert_eq!(pairs[2].0, vec![9, 9, 9, 9]);
}

#[test]
fn bisection_yields_adjacent_disjoint_halves() {
    let data: Vec<u32> = vec![10, 11, 12, 13, 14, 15, 16, 17, 18];
    let idxs: [usize; 5] = [0, 3, 4, 7, 9];
    let splitter = SubSlices { idxs: &idxs[..], data };
    let (mut left, mut right) = splitter.split_at(2);
    let mut left_chunks: Vec<Vec<u32>> = Vec::new();
    while let Some(chunk) = left.next() {
        left_chunks.push(chunk);
    }
    let mut right_chunks: Vec<Vec<u32>> = Vec::new();
    while let Some(chunk) = right.next() {
        right_chunks.push(chunk);
    }
    assert_eq!(left_chunks, vec![vec![10, 11, 12], vec![13]]);
    assert_eq!(right_chunks, vec![vec![14, 15, 16], vec![17, 18]]);
}

#[test]
fn parallel_stress_many_small_regions() {
    let backing: Vec<Vec<u8>> = (0..2000u32)
        .map(|k| (0..(k % 7)).map(|i| (k + i) as u8).collect())
        .collect();
    let sources: Vec<&[u8]> = backing.iter().map(|v| &v[..]).collect();
    let expected: Vec<u8> = sources.iter().flat_map(|s| s.iter().copied()).collect();
    assert_eq!(concat_slices(&sources[..]), expected);
    assert_eq!(unsafe_concat_slices(&sources[..]), expected);
    assert_eq!(par_concat_slices(&sources[..]), expected);
    assert_eq!(unsafe_par_concat_slices(&sources[..]), expected);
}
