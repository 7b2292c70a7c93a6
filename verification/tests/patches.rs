use diffuse_daemon::compute::{Patch, Tensor};
use diffuse_daemon::patches::{
    can_join, cut_rows, element_size, has_rows, join_rows, patch_steps, slice_rows, Diffusion,
    RowsError,
};

fn hidden(rows: i64) -> Tensor {
    Tensor {
        shape: vec![1, rows, 2],
        dtype: "float16".to_string(),
        data: (0..rows as u8 * 4).collect(),
    }
}

#[test]
fn rows_are_cut_out_by_their_bytes() {
    let t = hidden(4);
    let s = slice_rows(&t, 1, 3).unwrap();
    assert_eq!(s.shape, vec![1, 2, 2]);
    assert_eq!(s.data, (4..12).collect::<Vec<u8>>());
    assert!(has_rows(&t, 0, 4));
    assert!(!has_rows(&t, 0, 5));
    assert!(!has_rows(&t, 3, 2));
}

#[test]
fn what_was_cut_joins_again() {
    let t = hidden(7);
    let pieces: Vec<Tensor> =
        cut_rows(7, 3).into_iter().map(|(a, b)| slice_rows(&t, a, b).unwrap()).collect();
    assert_eq!(pieces.len(), 3);
    assert!(can_join(&pieces, &t));
    let back = join_rows(&pieces, &t);
    assert_eq!((back.shape, back.dtype, back.data), (t.shape, t.dtype, t.data));
}

#[test]
fn a_step_is_cut_into_parts_of_one_size() {
    assert_eq!(cut_rows(10, 4), vec![(0, 3), (3, 6), (6, 9), (9, 10)]);
    assert_eq!(cut_rows(5, 4), vec![(0, 2), (2, 4), (4, 5)], "what would be empty is left out");
    assert_eq!(cut_rows(2, 4), vec![(0, 1), (1, 2)]);
    assert_eq!(cut_rows(0, 4), vec![]);
    assert_eq!(cut_rows(9, 0), vec![], "no parts were asked for");
}

#[test]
fn hidden_states_that_cannot_be_cut_are_told_apart() {
    let mut t = hidden(2);
    t.dtype = "int8".to_string();
    let e = slice_rows(&t, 0, 1).unwrap_err();
    assert_eq!(e, RowsError::UnsupportedDtype);
    assert_eq!(e.message("int8"), "unsupported dtype int8");
    t.shape = vec![2, 2];
    let e = slice_rows(&t, 0, 1).unwrap_err();
    assert_eq!(e, RowsError::NotThreeDimensional);
    assert_eq!(e.message("int8"), "expected [batch, sequence, width] hidden states");
    for (dtype, size) in
        [("float32", 4), ("int32", 4), ("float16", 2), ("bfloat16", 2), ("int64", 8), ("float64", 8)]
    {
        assert_eq!(element_size(dtype), Ok(size));
    }
}

#[test]
fn no_pieces_join_to_no_rows() {
    let t = hidden(2);
    let back = join_rows(&[], &t);
    assert_eq!(back.shape, vec![1, 0, 2]);
    assert_eq!(back.dtype, "float16");
    assert!(back.data.is_empty());
    let odd = Tensor { shape: vec![1], dtype: String::new(), data: vec![] };
    assert!(!can_join(&[odd], &t));
}

#[test]
fn the_first_step_is_whole_and_the_ceiling_only_sinks() {
    let mut d = Diffusion::start(4, 0);
    assert_eq!(d.pieces(), 1);
    d.advance(0);
    assert_eq!(d.pieces(), 4);
    d.advance(2);
    assert_eq!(d.pieces(), 2);
    d.advance(9);
    assert_eq!(d.pieces(), 2);
    assert_eq!(d.calls, 3);
    assert_eq!(Diffusion::start(4, 1).allowed, 1);
    assert_eq!(Diffusion::start(4, 9).allowed, 4);
}

#[test]
fn what_comes_along_goes_with_the_first_part_only() {
    let patch = Patch {
        offset: 0,
        sequence: 10,
        branch: "b".to_string(),
        layout: "l".to_string(),
        arguments: vec![(1, hidden(1))],
    };
    let steps = patch_steps(patch, &vec![(0, 5), (5, 10)]);
    assert_eq!(steps.len(), 2);
    assert_eq!((steps[0].offset, steps[1].offset), (0, 5));
    assert_eq!((steps[0].sequence, steps[1].sequence), (10, 10));
    assert_eq!((steps[0].layout.as_str(), steps[1].layout.as_str()), ("l", ""));
    assert_eq!((steps[0].arguments.len(), steps[1].arguments.len()), (1, 0));
    assert_eq!(steps[1].branch, "b");
}
