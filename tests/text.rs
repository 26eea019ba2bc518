use pattie::axis::{axes_to_string, AxisBuilder, AxisIds};
use pattie::matrix::{CreateRandomDenseMatrix, MatrixError};
use pattie::tensor::COOTensor;
use pattie::text::{parse_index, parse_value, Found, LineNumberReader, TensorReadError};

const SAMPLE: &str = "3\n0\t0\t0\n3\t2\t3\n0\t0\t0\t1\n0\t0\t1\t2\n0\t1\t0\t3\n0\t1\t2\t4\n1\t0\t2\t5\n1\t1\t0\t6\n2\t0\t1\t7\n2\t1\t1\t8\n";

#[test]
fn read_sample() {
    let mut ids = AxisIds::new();
    let t = COOTensor::read_from_text(SAMPLE.as_bytes().to_vec(), &mut ids).unwrap();
    let sizes: Vec<usize> = t.shape().iter().map(|a| a.size()).collect();
    assert_eq!(sizes, vec![3, 2, 3]);
    assert_eq!(t.num_blocks(), 8);
    assert_eq!(t.indices[4], vec![1, 0, 2]);
    assert_eq!(t.values[4], vec![5]);
    assert!(t.dense_axes().is_empty());
    assert_eq!(ids.next, 3);
}

#[test]
fn write_then_read_keeps_tensor() {
    let mut ids = AxisIds::new();
    let t = COOTensor::read_from_text(SAMPLE.as_bytes().to_vec(), &mut ids).unwrap();
    let text = t.write_to_text();
    assert_eq!(String::from_utf8(text.clone()).unwrap(), SAMPLE);
    let again = COOTensor::read_from_text(text, &mut ids).unwrap();
    assert_eq!(again.indices, t.indices);
    assert_eq!(again.values, t.values);
    let bounds: Vec<(usize, usize)> = again.shape().iter().map(|a| (a.lower(), a.upper())).collect();
    assert_eq!(bounds, vec![(0, 3), (0, 2), (0, 3)]);
}

#[test]
fn comments_crlf_and_signs() {
    let text = "# a tensor\r\n2 # axes\r\n1 0\r\n4 2\r\n\r\n3 1 -7 # last\r\n1\t0\t+12\r\n";
    let mut ids = AxisIds::new();
    let t = COOTensor::read_from_text(text.as_bytes().to_vec(), &mut ids).unwrap();
    assert_eq!(t.indices, vec![vec![3, 1], vec![1, 0]]);
    assert_eq!(t.values, vec![vec![-7], vec![12]]);
    assert_eq!(t.shape()[0].lower(), 1);
    let out = String::from_utf8(t.write_to_text()).unwrap();
    assert_eq!(out, "2\n1\t0\n4\t2\n3\t1\t-7\n1\t0\t12\n");
}

#[test]
fn header_only() {
    let mut ids = AxisIds::new();
    let t = COOTensor::read_from_text(b"2\n0 0\n2 2\n".to_vec(), &mut ids).unwrap();
    assert_eq!(t.num_blocks(), 0);
    assert_eq!(t.ndim(), 2);
    let t = COOTensor::read_from_text(b"0\n".to_vec(), &mut ids).unwrap();
    assert_eq!(t.ndim(), 0);
    assert_eq!(t.write_to_text(), b"0\n".to_vec());
}

#[test]
fn index_out_of_bound() {
    let mut ids = AxisIds::new();
    let r = COOTensor::read_from_text(b"2\n0 0\n3 3\n1 5 1\n".to_vec(), &mut ids);
    match r {
        Err(TensorReadError::IndexOutOfBoundError { line, column }) => {
            assert_eq!((line, column), (4, 3));
        }
        other => panic!("unexpected {:?}", other),
    }
}

#[test]
fn bad_value() {
    let mut ids = AxisIds::new();
    let r = COOTensor::read_from_text(b"1\n0\n3\n1 x\n".to_vec(), &mut ids);
    match r {
        Err(TensorReadError::ValueError { line, column, value }) => {
            assert_eq!((line, column), (4, 3));
            assert_eq!(value, b"x".to_vec());
        }
        other => panic!("unexpected {:?}", other),
    }
}

#[test]
fn truncated_header() {
    let mut ids = AxisIds::new();
    let r = COOTensor::read_from_text(b"2\n0 0\n".to_vec(), &mut ids);
    match r {
        Err(TensorReadError::TokenizeError { line, found, .. }) => {
            assert_eq!(line, 3);
            assert_eq!(found, Found::EndOfFile);
        }
        other => panic!("unexpected {:?}", other),
    }
    let r = COOTensor::read_from_text(b"2\n0 0 0\n".to_vec(), &mut ids);
    assert!(matches!(r, Err(TensorReadError::TokenizeError { found: Found::Byte(b'0'), .. })));
}

#[test]
fn error_at_first_coordinate_of_line() {
    let mut ids = AxisIds::new();
    let r = COOTensor::read_from_text(b"1\n0\n3\n1\t4\n  7 2\n".to_vec(), &mut ids);
    match r {
        Err(TensorReadError::IndexOutOfBoundError { line, column }) => assert_eq!((line, column), (5, 3)),
        other => panic!("unexpected {:?}", other),
    }
}

#[test]
fn token_not_utf8() {
    let mut ids = AxisIds::new();
    let r = COOTensor::read_from_text(b"1\n0\n3\n1 \xff\n".to_vec(), &mut ids);
    match r {
        Err(TensorReadError::FromUtf8Error { line, column }) => assert_eq!((line, column), (4, 3)),
        other => panic!("unexpected {:?}", other),
    }
    let r = COOTensor::read_from_text(b"1\n0\n3\n1 \xc3\xa9\n".to_vec(), &mut ids);
    assert!(matches!(r, Err(TensorReadError::ValueError { line: 4, column: 3, .. })));
}

#[test]
fn missing_value() {
    let mut ids = AxisIds::new();
    let r = COOTensor::read_from_text(b"2\n0 0\n3 3\n1 1\n".to_vec(), &mut ids);
    assert!(matches!(r, Err(TensorReadError::TokenizeError { found: Found::NewLine, .. })));
}

#[test]
fn numbers() {
    assert_eq!(parse_value(b"-9223372036854775808"), Some(i64::MIN));
    assert_eq!(parse_value(b"9223372036854775807"), Some(i64::MAX));
    assert_eq!(parse_value(b"9223372036854775808"), None);
    assert_eq!(parse_value(b"+5"), Some(5));
    assert_eq!(parse_value(b"-"), None);
    assert_eq!(parse_value(b""), None);
    assert_eq!(parse_value(b"1.5"), None);
    assert_eq!(parse_index(b"12"), Some(12));
    assert_eq!(parse_index(b"+3"), Some(3));
    assert_eq!(parse_index(b"-1"), None);
    assert_eq!(parse_index(b"18446744073709551616"), None);
}

#[test]
fn line_number_reader() {
    let mut r = LineNumberReader::new(b"a\nb".to_vec());
    assert_eq!(r.line_column(), (1, 1));
    assert_eq!(r.peek_byte(), Some(b'a'));
    assert_eq!(r.read_byte(), Some(b'a'));
    assert_eq!(r.line_column(), (1, 2));
    assert_eq!(r.read_byte(), Some(b'\n'));
    assert_eq!(r.line_column(), (2, 1));
    assert_eq!(r.read_byte(), Some(b'b'));
    assert_eq!(r.read_byte(), None);
    assert_eq!(r.peek_byte(), None);
    assert_eq!(r.inner(), b"a\nb");
    assert_eq!(r.into_inner(), b"a\nb".to_vec());
}

#[test]
fn axes_as_text() {
    let mut ids = AxisIds::new();
    let x = AxisBuilder::new().label("x").range(0..10).build(&mut ids);
    let y = AxisBuilder::new().range(2..13).build(&mut ids);
    assert_eq!(axes_to_string(&[x.clone(), y.clone()]), "[x(0..10), ax#1(2..13)]");
    assert_eq!(axes_to_string(&[]), "[]");
    assert_eq!(y.to_text(), "ax#1(2..13)");
}

#[test]
fn dense_matrix_from_draws() {
    let mut ids = AxisIds::new();
    let rows = AxisBuilder::new().range(0..3).build(&mut ids);
    let cols = AxisBuilder::new().range(0..2).build(&mut ids);
    let task = CreateRandomDenseMatrix::new((rows.clone(), cols.clone()), 0, 1);
    let m = task.execute(vec![1, 2, 3, 4, 5, 6]).unwrap();
    assert_eq!(m.values, vec![vec![1, 2, 3, 4, 5, 6]]);
    assert!(m.dense_axes()[0] == rows && m.dense_axes()[1] == cols);
    assert!(m.sparse_axes().is_empty());
    let task = CreateRandomDenseMatrix::new((rows, cols), 0, 1);
    assert_eq!(task.execute(vec![1, 2, 3]).unwrap_err(), MatrixError::WrongNumberOfValues);
}

#[test]
fn entries_of_semi_sparse_tensor() {
    let mut ids = AxisIds::new();
    let a = AxisBuilder::new().range(0..2).build(&mut ids);
    let b = AxisBuilder::new().range(1..3).build(&mut ids);
    let c = AxisBuilder::new().range(5..8).build(&mut ids);
    let mut t = COOTensor::zeros(&[a, b, c], &[true, false, true]);
    t.push_block(&[2], &[1, 2, 3, 4, 5, 6]);
    let entries = t.iter();
    assert_eq!(entries.len(), 6);
    assert_eq!(entries[0], (vec![0, 2, 5], 1));
    assert_eq!(entries[2], (vec![0, 2, 7], 3));
    assert_eq!(entries[3], (vec![1, 2, 5], 4));
    assert_eq!(entries[5], (vec![1, 2, 7], 6));
    let text = String::from_utf8(t.write_to_text()).unwrap();
    assert_eq!(
        text,
        "3\n0\t1\t5\n2\t3\t8\n0\t2\t5\t1\n0\t2\t6\t2\n0\t2\t7\t3\n1\t2\t5\t4\n1\t2\t6\t5\n1\t2\t7\t6\n"
    );
}

#[test]
fn set_value_changes_one_entry() {
    let mut ids = AxisIds::new();
    let a = AxisBuilder::new().range(0..2).build(&mut ids);
    let b = AxisBuilder::new().range(0..3).build(&mut ids);
    let mut t = COOTensor::zeros(&[a, b], &[false, true]);
    t.push_block(&[1], &[1, 2, 3]);
    t.push_block(&[0], &[4, 5, 6]);
    t.set_value(1, 2, 60);
    assert_eq!(t.values, vec![vec![1, 2, 3], vec![4, 5, 60]]);
    assert_eq!(t.iter()[5], (vec![0, 2], 60));
}

#[test]
fn dense_tensor_from_values() {
    let mut ids = AxisIds::new();
    let t = COOTensor::from_dense(&[2, 3], vec![1, 2, 3, 4, 5, 6], &mut ids).unwrap();
    assert_eq!(ids.next, 2);
    assert_eq!(t.ndim(), 2);
    assert_eq!(t.shape()[1].range(), 0..3);
    assert!(t.sparse_axes().is_empty());
    assert_eq!(t.values, vec![vec![1, 2, 3, 4, 5, 6]]);
    assert_eq!(t.iter()[4], (vec![1, 1], 5));
    let r = COOTensor::from_dense(&[2, 3], vec![1, 2], &mut ids);
    assert_eq!(r.unwrap_err(), MatrixError::WrongNumberOfValues);
    assert_eq!(ids.next, 2);
    let empty = COOTensor::from_dense(&[4, 0, 9], Vec::new(), &mut ids).unwrap();
    assert_eq!(empty.block_size(), 0);
}

#[test]
fn writes_name_and_labels() {
    let mut ids = AxisIds::new();
    let x = AxisBuilder::new().label("x").range(0..2).build(&mut ids);
    let y = AxisBuilder::new().range(0..3).build(&mut ids);
    let mut t = COOTensor::zeros(&[x, y], &[false, false]);
    t.name = Some("t".to_string());
    t.push_block(&[1, 2], &[-4]);
    let text = String::from_utf8(t.write_to_text()).unwrap();
    assert_eq!(text, "# t\n2\n# Axis 0: x\n# Axis 1 has no label\n0\t0\n2\t3\n1\t2\t-4\n");
    let back = COOTensor::read_from_text(text.into_bytes(), &mut ids).unwrap();
    assert_eq!(back.indices, vec![vec![1, 2]]);
    assert_eq!(back.values, vec![vec![-4]]);
    assert_eq!(back.shape()[1].range(), 0..3);
}
