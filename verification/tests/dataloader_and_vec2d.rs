use symreg::dataloader::DataLoader;
use symreg::dataloader::categorize_cols;
use symreg::expr::BinaryOp;
use symreg::expr::UnaryOp;
use symreg::num::NumOp;
use symreg::vec2d::Iter;
use symreg::vec2d::Vec2d;

fn real_arith(op: NumOp, a: u64, b: u64) -> u64 {
    let x = f64::from_bits(a);
    let y = f64::from_bits(b);
    match op {
        NumOp::Bin(BinaryOp::Add) => (x + y).to_bits(),
        NumOp::Bin(BinaryOp::Sub) => (x - y).to_bits(),
        NumOp::Bin(BinaryOp::Mul) => (x * y).to_bits(),
        NumOp::Bin(BinaryOp::Div) => (x / y).to_bits(),
        NumOp::Bin(BinaryOp::Pow) => x.powf(y).to_bits(),
        NumOp::Un(UnaryOp::Neg) => (-x).to_bits(),
        NumOp::Un(UnaryOp::Abs) => x.abs().to_bits(),
        NumOp::Un(UnaryOp::Loge) => x.ln().to_bits(),
        NumOp::Un(UnaryOp::Log2) => x.log2().to_bits(),
        NumOp::Un(UnaryOp::Log10) => x.log10().to_bits(),
        NumOp::Un(UnaryOp::Sin) => x.sin().to_bits(),
        NumOp::Un(UnaryOp::Cos) => x.cos().to_bits(),
        NumOp::Un(UnaryOp::Tan) => x.tan().to_bits(),
        NumOp::OfCount => (a as f64).to_bits(),
        NumOp::ToCount => x as u64,
    }
}

fn parse_cell(s: &str) -> Option<u64> {
    s.parse::<f64>().ok().map(|x| x.to_bits())
}

fn collect_row(table: &Vec2d<&str>, idx: usize) -> Vec<String> {
    table
        .get_row(idx)
        .expect("row should exist")
        .iter()
        .map(|c| c.to_string())
        .collect()
}

#[test]
fn columns_counts_the_first_record() {
    let loader = DataLoader::from_text("a,b,c\n1,2,3\n".to_string());
    assert_eq!(loader.columns(), 3);
    let single = DataLoader::from_text("alone\n".to_string());
    assert_eq!(single.columns(), 1);
}

#[test]
fn vec2d_splits_records_and_cells() {
    let loader = DataLoader::from_text("a,b\n1,2\nx,y\n".to_string());
    let table = loader.vec2d();
    let (rows, cols) = table.shape();
    assert_eq!((rows, cols), (3, 2));
    assert_eq!(collect_row(&table, 0), vec!["a", "b"]);
    assert_eq!(collect_row(&table, 1), vec!["1", "2"]);
    assert_eq!(collect_row(&table, 2), vec!["x", "y"]);
}

#[test]
fn vec2d_handles_crlf_and_drops_unfinished_lines() {
    let loader = DataLoader::from_text("a,b\r\n1,2\r\npartial,row".to_string());
    let table = loader.vec2d();
    let (rows, cols) = table.shape();
    assert_eq!((rows, cols), (2, 2));
    assert_eq!(collect_row(&table, 0), vec!["a", "b"]);
    assert_eq!(collect_row(&table, 1), vec!["1", "2"]);
}

#[test]
fn categorize_parses_numbers_and_codes_labels() {
    let text = "h1,h2\n1.5,Iris-setosa\n2.5,Iris-versicolor\n3.5,Iris-setosa\n4.5,Iris-virginica\n";
    let loader = DataLoader::from_text(text.to_string());
    let mut table = loader.vec2d();
    let _headers = table.pop_head();
    let numeric = categorize_cols(table, &parse_cell, &real_arith);
    let (rows, cols) = numeric.shape();
    assert_eq!((rows, cols), (4, 2));
    let get = |r: usize, c: usize| {
        f64::from_bits(numeric.get_row(r).unwrap()[c])
    };
    assert_eq!(get(0, 0), 1.5);
    assert_eq!(get(1, 0), 2.5);
    assert_eq!(get(2, 0), 3.5);
    assert_eq!(get(3, 0), 4.5);
    assert_eq!(get(0, 1), 0.0);
    assert_eq!(get(1, 1), 1.0);
    assert_eq!(get(2, 1), 0.0);
    assert_eq!(get(3, 1), 2.0);
}

#[test]
fn categorize_method_matches_free_function() {
    let text = "x,label\n7,on\n8,off\n9,on\n";
    let loader = DataLoader::from_text(text.to_string());
    let numeric = loader.categorize_cols(&parse_cell, &real_arith);
    let get = |r: usize, c: usize| f64::from_bits(numeric.get_row(r).unwrap()[c]);
    // The header row is still present here and is categorical in both columns.
    assert_eq!(get(0, 0), 0.0);
    assert_eq!(get(0, 1), 0.0);
    assert_eq!(get(1, 0), 7.0);
    assert_eq!(get(1, 1), 1.0);
    assert_eq!(get(2, 0), 8.0);
    assert_eq!(get(2, 1), 2.0);
    assert_eq!(get(3, 0), 9.0);
    assert_eq!(get(3, 1), 1.0);
}

#[test]
fn pop_head_removes_the_first_row_reversed() {
    let mut table: Vec2d<u32> = Vec2d::new(3);
    table.push_slice(&[1, 2, 3]);
    table.push_slice(&[4, 5, 6]);
    let head = table.pop_head();
    assert_eq!(head, vec![3, 2, 1]);
    assert_eq!(table.shape(), (1, 3));
    assert_eq!(table.get_row(0).unwrap(), &[4, 5, 6]);
}

#[test]
fn split_right_detaches_the_last_column() {
    let mut table: Vec2d<u32> = Vec2d::new(3);
    table.push_slice(&[1, 2, 3]);
    table.push_slice(&[4, 5, 6]);
    let (left, right) = table.split_right();
    assert_eq!(left.shape(), (2, 2));
    assert_eq!(left.get_row(0).unwrap(), &[1, 2]);
    assert_eq!(left.get_row(1).unwrap(), &[4, 5]);
    assert_eq!(right, vec![3, 6]);
}

#[test]
fn split_left_detaches_the_first_column() {
    let mut table: Vec2d<u32> = Vec2d::new(3);
    table.push_slice(&[1, 2, 3]);
    table.push_slice(&[4, 5, 6]);
    let (left, rest) = table.split_left();
    assert_eq!(left, vec![1, 4]);
    assert_eq!(rest.shape(), (2, 2));
    assert_eq!(rest.get_row(0).unwrap(), &[2, 3]);
    assert_eq!(rest.get_row(1).unwrap(), &[5, 6]);
}

#[test]
fn get_col_copies_a_column() {
    let mut table: Vec2d<u32> = Vec2d::new(2);
    table.push_slice(&[1, 2]);
    table.push_slice(&[3, 4]);
    table.push_slice(&[5, 6]);
    assert_eq!(table.get_col(1).unwrap(), vec![2, 4, 6]);
    assert!(table.get_col(2).is_none());
}

#[test]
fn idx_reads_the_transposed_offset() {
    let mut table: Vec2d<u32> = Vec2d::new(2);
    table.push_slice(&[10, 20]);
    table.push_slice(&[30, 40]);
    // idx(row, col) reads the buffer at col * dim + row.
    assert_eq!(table.idx(0, 0), 10);
    assert_eq!(table.idx(1, 0), 20);
    assert_eq!(table.idx(0, 1), 30);
    assert_eq!(table.idx(1, 1), 40);
}

#[test]
fn push_and_pop_work_on_the_flat_buffer() {
    let mut table: Vec2d<u32> = Vec2d::new(2);
    table.push(1);
    table.push(2);
    assert_eq!(table.pop(), Some(2));
    assert_eq!(table.pop(), Some(1));
    assert_eq!(table.pop(), None);
}

#[test]
fn iter_hands_out_the_first_row() {
    let mut table: Vec2d<u32> = Vec2d::new(2);
    table.push_slice(&[7, 8]);
    table.push_slice(&[9, 10]);
    let mut it: Iter<u32> = table.into_iter();
    assert_eq!(it.next(), Some(vec![7, 8]));
    // The walker keeps handing out the first row of its container.
    assert_eq!(it.next(), Some(vec![7, 8]));
    let empty: Vec2d<u32> = Vec2d::new(2);
    let mut it2: Iter<u32> = empty.into_iter();
    assert_eq!(it2.next(), None);
}
