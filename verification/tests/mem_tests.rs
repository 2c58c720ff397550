use cfpyo3_core::column_contiguous;
use cfpyo3_core::shm_batch_column_contiguous;
use cfpyo3_core::shm_batch_sliced_column_contiguous;
use cfpyo3_core::shm_batch_grouped_sliced_column_contiguous;
use cfpyo3_core::shm_column_contiguous;
use cfpyo3_core::shm_row_contiguous;
use cfpyo3_core::shm_sliced_column_contiguous;
use cfpyo3_core::CachedGetter;
use cfpyo3_core::MemError;
use cfpyo3_core::Offsets;
use cfpyo3_core::SlicedSHMFetcher;

fn base_meta() -> (Vec<i64>, Vec<i64>, Vec<i64>, Vec<i64>) {
    let full_index = vec![0i64, 1, 2, 3, 4, 6, 8, 10];
    let time_idx_to_date_idx = vec![0i64, 0, 1, 1, 2, 2, 3, 3];
    let date_columns_offset = vec![0i64, 4, 9, 15, 22];
    let compact_columns = vec![
        0i64, 1, 2, 3, 0, 1, 2, 3, 4, 0, 1, 2, 3, 4, 5, 0, 1, 2, 3, 4, 5, 6,
    ];
    (full_index, time_idx_to_date_idx, date_columns_offset, compact_columns)
}

fn compact_data() -> Vec<f32> {
    (0..44).map(|x| x as f32).collect()
}

fn sliced_data() -> Vec<Vec<f32>> {
    vec![
        (0..8).map(|x| x as f32).collect(),
        (8..18).map(|x| x as f32).collect(),
        (18..30).map(|x| x as f32).collect(),
        (30..44).map(|x| x as f32).collect(),
    ]
}

/// Compare flat results row by row, treating NaN cells as equal to NaN.
fn assert_vec_eq(rows: usize, cols: usize, got: &[f32], want: &[&[f32]]) {
    assert_eq!(got.len(), rows * cols);
    assert_eq!(want.len(), rows);
    for t in 0..rows {
        for j in 0..cols {
            let a = got[t * cols + j];
            let b = want[t][j];
            if a.is_nan() != b.is_nan() {
                panic!("NaN mismatch at row {} col {}: {} vs {}", t, j, a, b);
            }
            if !a.is_nan() && a != b {
                panic!("value mismatch at row {} col {}: {} vs {}", t, j, a, b);
            }
        }
    }
}

/// Transpose a symbol-major flat result into row-major for comparison.
fn transpose(cols: usize, len: usize, got: &[f32]) -> Vec<f32> {
    let mut out = vec![0.0f32; cols * len];
    for j in 0..cols {
        for t in 0..len {
            out[t * cols + j] = got[j * len + t];
        }
    }
    out
}

#[test]
fn test_shm_row_contiguous() {
    let (full_index, t2d, off, compact_columns) = base_meta();
    let data = compact_data();

    let columns = vec![0i64, 1, 2, 3];
    let flattened = shm_row_contiguous(
        1, 8, 6, &columns, 2, &full_index, &t2d, &off, &compact_columns, &data, f32::NAN,
    )
    .unwrap();
    assert_vec_eq(
        6,
        4,
        &flattened,
        &[
            &[4., 5., 6., 7.],
            &[8., 9., 10., 11.],
            &[13., 14., 15., 16.],
            &[18., 19., 20., 21.],
            &[24., 25., 26., 27.],
            &[30., 31., 32., 33.],
        ],
    );

    let columns = vec![1i64, 2, 3, 4];
    let flattened = shm_row_contiguous(
        1, 8, 6, &columns, 2, &full_index, &t2d, &off, &compact_columns, &data, f32::NAN,
    )
    .unwrap();
    assert_vec_eq(
        6,
        4,
        &flattened,
        &[
            &[5., 6., 7., f32::NAN],
            &[9., 10., 11., 12.],
            &[14., 15., 16., 17.],
            &[19., 20., 21., 22.],
            &[25., 26., 27., 28.],
            &[31., 32., 33., 34.],
        ],
    );

    let columns = vec![2i64, 3, 4, 5];
    let flattened = shm_row_contiguous(
        1, 8, 6, &columns, 2, &full_index, &t2d, &off, &compact_columns, &data, f32::NAN,
    )
    .unwrap();
    assert_vec_eq(
        6,
        4,
        &flattened,
        &[
            &[6., 7., f32::NAN, f32::NAN],
            &[10., 11., 12., f32::NAN],
            &[15., 16., 17., f32::NAN],
            &[20., 21., 22., 23.],
            &[26., 27., 28., 29.],
            &[32., 33., 34., 35.],
        ],
    );
}

#[test]
fn test_shm_column_contiguous_data() {
    let (full_index, t2d, off, compact_symbols) = base_meta();
    let data = compact_data();

    let columns = vec![0i64, 1, 2, 3];
    let flattened = shm_column_contiguous(
        1, 8, 6, &columns, 2, &full_index, &t2d, &off, &compact_symbols, &data, f32::NAN,
    )
    .unwrap();
    let result = transpose(4, 6, &flattened);
    assert_vec_eq(
        6,
        4,
        &result,
        &[
            &[1.0, 3.0, 5.0, 7.0],
            &[8.0, 10.0, 12.0, 14.0],
            &[9.0, 11.0, 13.0, 15.0],
            &[18.0, 20.0, 22.0, 24.0],
            &[19.0, 21.0, 23.0, 25.0],
            &[30.0, 32.0, 34.0, 36.0],
        ],
    );

    let columns = vec![1i64, 2, 3, 4];
    let flattened = shm_column_contiguous(
        1, 8, 6, &columns, 2, &full_index, &t2d, &off, &compact_symbols, &data, f32::NAN,
    )
    .unwrap();
    let result = transpose(4, 6, &flattened);
    assert_vec_eq(
        6,
        4,
        &result,
        &[
            &[3.0, 5.0, 7.0, f32::NAN],
            &[10.0, 12.0, 14.0, 16.0],
            &[11.0, 13.0, 15.0, 17.0],
            &[20.0, 22.0, 24.0, 26.0],
            &[21.0, 23.0, 25.0, 27.0],
            &[32.0, 34.0, 36.0, 38.0],
        ],
    );

    let columns = vec![2i64, 3, 4, 5];
    let flattened = shm_column_contiguous(
        1, 8, 6, &columns, 2, &full_index, &t2d, &off, &compact_symbols, &data, f32::NAN,
    )
    .unwrap();
    let result = transpose(4, 6, &flattened);
    assert_vec_eq(
        6,
        4,
        &result,
        &[
            &[5.0, 7.0, f32::NAN, f32::NAN],
            &[12.0, 14.0, 16.0, f32::NAN],
            &[13.0, 15.0, 17.0, f32::NAN],
            &[22.0, 24.0, 26.0, 28.0],
            &[23.0, 25.0, 27.0, 29.0],
            &[34.0, 36.0, 38.0, 40.0],
        ],
    );
}

#[test]
fn test_shm_sliced_column_contiguous_data() {
    let (full_index, t2d, off, compact_symbols) = base_meta();
    let sliced = sliced_data();

    let columns = vec![0i64, 1, 2, 3];
    let flattened = shm_sliced_column_contiguous(
        1, 8, 6, &columns, 2, &full_index, &t2d, &off, &compact_symbols, &sliced, None, f32::NAN,
    )
    .unwrap();
    let result = transpose(4, 6, &flattened);
    assert_vec_eq(
        6,
        4,
        &result,
        &[
            &[1.0, 3.0, 5.0, 7.0],
            &[8.0, 10.0, 12.0, 14.0],
            &[9.0, 11.0, 13.0, 15.0],
            &[18.0, 20.0, 22.0, 24.0],
            &[19.0, 21.0, 23.0, 25.0],
            &[30.0, 32.0, 34.0, 36.0],
        ],
    );

    let columns = vec![1i64, 2, 3, 4];
    let flattened = shm_sliced_column_contiguous(
        1, 8, 6, &columns, 2, &full_index, &t2d, &off, &compact_symbols, &sliced, None, f32::NAN,
    )
    .unwrap();
    let result = transpose(4, 6, &flattened);
    assert_vec_eq(
        6,
        4,
        &result,
        &[
            &[3.0, 5.0, 7.0, f32::NAN],
            &[10.0, 12.0, 14.0, 16.0],
            &[11.0, 13.0, 15.0, 17.0],
            &[20.0, 22.0, 24.0, 26.0],
            &[21.0, 23.0, 25.0, 27.0],
            &[32.0, 34.0, 36.0, 38.0],
        ],
    );

    let columns = vec![2i64, 3, 4, 5];
    let flattened = shm_sliced_column_contiguous(
        1, 8, 6, &columns, 2, &full_index, &t2d, &off, &compact_symbols, &sliced, None, f32::NAN,
    )
    .unwrap();
    let result = transpose(4, 6, &flattened);
    assert_vec_eq(
        6,
        4,
        &result,
        &[
            &[5.0, 7.0, f32::NAN, f32::NAN],
            &[12.0, 14.0, 16.0, f32::NAN],
            &[13.0, 15.0, 17.0, f32::NAN],
            &[22.0, 24.0, 26.0, 28.0],
            &[23.0, 25.0, 27.0, 29.0],
            &[34.0, 36.0, 38.0, 40.0],
        ],
    );
}

#[test]
fn test_discontinuous_index_is_rejected() {
    let (full_index, t2d, off, compact_columns) = base_meta();
    let data = compact_data();
    let columns = vec![0i64, 1, 2, 3];
    // datetime_end 9 does not stand at position time_start + len - 1 of the index
    let r = shm_row_contiguous(
        1, 9, 6, &columns, 2, &full_index, &t2d, &off, &compact_columns, &data, f32::NAN,
    );
    assert!(matches!(r, Err(MemError::DatetimeIndexNotContinuous)));
    let r = shm_column_contiguous(
        1, 9, 6, &columns, 2, &full_index, &t2d, &off, &compact_columns, &data, f32::NAN,
    );
    assert!(matches!(r, Err(MemError::DatetimeIndexNotContinuous)));
}

#[test]
fn test_shm_batch_column_contiguous_two_queries() {
    let (full_index, t2d, off, compact_symbols) = base_meta();
    let data = compact_data();
    let starts = vec![1i64, 0];
    let ends = vec![8i64, 6];
    let columns = vec![vec![0i64, 1, 2, 3], vec![0i64, 1, 2, 3]];
    let flattened = shm_batch_column_contiguous(
        &starts,
        &ends,
        6,
        &columns,
        2,
        &vec![full_index.clone()],
        &vec![t2d.clone()],
        &vec![off.clone()],
        &vec![compact_symbols.clone()],
        &vec![data.clone()],
        4,
        f32::NAN,
    )
    .unwrap();
    assert_eq!(flattened.len(), 2 * 24);
    // first query equals the single-query result
    let single = shm_column_contiguous(
        1, 8, 6, &columns[0], 2, &full_index, &t2d, &off, &compact_symbols, &data, f32::NAN,
    )
    .unwrap();
    assert_eq!(&flattened[..24], &single[..]);
    // running the batch twice gives bitwise-equal outputs
    let again = shm_batch_column_contiguous(
        &starts,
        &ends,
        6,
        &columns,
        2,
        &vec![full_index.clone()],
        &vec![t2d.clone()],
        &vec![off.clone()],
        &vec![compact_symbols.clone()],
        &vec![data.clone()],
        2,
        f32::NAN,
    )
    .unwrap();
    assert_eq!(
        flattened.iter().map(|x| x.to_bits()).collect::<Vec<_>>(),
        again.iter().map(|x| x.to_bits()).collect::<Vec<_>>(),
    );
}

#[test]
fn test_shm_batch_grouped_sliced_two_groups() {
    // two channel values per cell: every day buffer doubles each cell
    let (full_index, t2d, off, compact_symbols) = base_meta();
    let sliced: Vec<Vec<f32>> = sliced_data()
        .into_iter()
        .map(|day| day.into_iter().flat_map(|x| [x, x + 0.5]).collect())
        .collect();
    let columns = vec![vec![0i64, 1, 2, 3]];
    let flattened = shm_batch_grouped_sliced_column_contiguous(
        &vec![1i64],
        &vec![8i64],
        6,
        &columns,
        2,
        &full_index,
        &t2d,
        &off,
        &compact_symbols,
        &sliced,
        2,
        2,
        f32::NAN,
    )
    .unwrap();
    assert_eq!(flattened.len(), 4 * 6 * 2);
    // channel 0 of column 0 matches the ungrouped result's column 0
    let plain = shm_sliced_column_contiguous(
        1,
        8,
        6,
        &columns[0],
        2,
        &full_index,
        &t2d,
        &off,
        &compact_symbols,
        &sliced_data(),
        None,
        f32::NAN,
    )
    .unwrap();
    for j in 0..4 {
        for t in 0..6 {
            assert_eq!(flattened[(j * 6 + t) * 2], plain[j * 6 + t]);
            assert_eq!(flattened[(j * 6 + t) * 2 + 1], plain[j * 6 + t] + 0.5);
        }
    }
}

#[test]
fn test_column_contiguous_with_channel_offsets() {
    let (full_index, t2d, off, compact_symbols) = base_meta();
    let sliced = sliced_data();
    let columns = vec![0i64, 1, 2, 3];
    // one channel of this group inside two-channel slots, written at pad 1
    let mut region = vec![-1.0f32; 4 * 6 * 2];
    let fetcher = SlicedSHMFetcher::new(&sliced, Some(1));
    let mut getter = CachedGetter::new(&columns);
    column_contiguous(
        None,
        1,
        8,
        6,
        &columns,
        2,
        &full_index,
        &t2d,
        &off,
        &compact_symbols,
        &mut getter,
        &fetcher,
        &mut region,
        f32::NAN,
        0,
        Some(1),
        Some(Offsets { column_offset: 0, channel_pad_start: 1, channel_pad_end: 0 }),
    )
    .unwrap();
    let plain = shm_sliced_column_contiguous(
        1, 8, 6, &columns, 2, &full_index, &t2d, &off, &compact_symbols, &sliced, None, f32::NAN,
    )
    .unwrap();
    for p in 0..24 {
        // the group's channel interleaves at odd positions; the rest is untouched
        assert_eq!(region[2 * p], -1.0);
        assert_eq!(region[2 * p + 1], plain[p]);
    }
}

#[test]
fn test_row_and_column_layouts_agree() {
    // the same logical data laid out in both orientations: the two
    // planners produce the same cells, arranged time-major vs symbol-major
    let (full_index, t2d, off, compact_columns) = base_meta();
    let data_r = compact_data();
    let mut data_c = vec![0.0f32; data_r.len()];
    for d in 0..4 {
        let base = off[d] as usize;
        let s_n = (off[d + 1] - off[d]) as usize;
        for p in 0..s_n {
            for tk in 0..2 {
                data_c[(base + p) * 2 + tk] = data_r[base * 2 + tk * s_n + p];
            }
        }
    }
    for columns in [vec![0i64, 1, 2, 3], vec![1i64, 2, 3, 4], vec![2i64, 3, 4, 5]] {
        let by_rows = shm_row_contiguous(
            1, 8, 6, &columns, 2, &full_index, &t2d, &off, &compact_columns, &data_r, f32::NAN,
        )
        .unwrap();
        let by_cols = shm_column_contiguous(
            1, 8, 6, &columns, 2, &full_index, &t2d, &off, &compact_columns, &data_c, f32::NAN,
        )
        .unwrap();
        for t in 0..6 {
            for j in 0..4 {
                let a = by_rows[t * 4 + j];
                let b = by_cols[j * 6 + t];
                assert!(a.is_nan() == b.is_nan() && (a.is_nan() || a == b));
            }
        }
    }
}

#[test]
fn test_shm_batch_sliced_column_contiguous_two_queries() {
    let (full_index, t2d, off, compact_symbols) = base_meta();
    let sliced = sliced_data();
    let starts = vec![1i64, 0];
    let ends = vec![8i64, 6];
    let columns = vec![vec![0i64, 1, 2, 3], vec![2i64, 3, 4, 5]];
    let flattened = shm_batch_sliced_column_contiguous(
        &starts,
        &ends,
        6,
        &columns,
        2,
        &vec![full_index.clone()],
        &vec![t2d.clone()],
        &vec![off.clone()],
        &vec![compact_symbols.clone()],
        &vec![sliced.clone()],
        3,
        f32::NAN,
    )
    .unwrap();
    assert_eq!(flattened.len(), 2 * 24);
    for (b, (ds, de)) in starts.iter().zip(ends.iter()).enumerate() {
        let single = shm_sliced_column_contiguous(
            *ds,
            *de,
            6,
            &columns[b],
            2,
            &full_index,
            &t2d,
            &off,
            &compact_symbols,
            &sliced,
            None,
            f32::NAN,
        )
        .unwrap();
        for p in 0..24 {
            let a = flattened[b * 24 + p];
            let c = single[p];
            assert!(a.is_nan() == c.is_nan() && (a.is_nan() || a == c));
        }
    }
}
