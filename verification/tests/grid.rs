use mc_options::error::PricingError;
use mc_options::grid::Grid;
use mc_options::utils::generate_matrix;

#[test]
fn zeros_builds_a_grid_of_zeros() {
    let g = Grid::zeros(2, 3).unwrap();
    assert_eq!(g.dim(), (2, 3));
    for i in 0..2 {
        for j in 0..3 {
            assert_eq!(g.get(i, j), Some(0));
        }
    }
}

#[test]
fn zeros_accepts_empty_shapes() {
    assert_eq!(Grid::zeros(0, 5).unwrap().dim(), (0, 5));
    assert_eq!(Grid::zeros(4, 0).unwrap().dim(), (4, 0));
    assert_eq!(Grid::zeros(0, 0).unwrap().dim(), (0, 0));
}

#[test]
fn zeros_refuses_a_shape_too_large() {
    assert_eq!(Grid::zeros(usize::MAX, 2).err(), Some(PricingError::InvalidDimension));
    assert_eq!(Grid::zeros(usize::MAX, 0).err(), Some(PricingError::InvalidDimension));
    assert_eq!(Grid::zeros(0, usize::MAX).err(), Some(PricingError::InvalidDimension));
    assert_eq!(
        Grid::zeros(1 << (usize::BITS / 2), 1 << (usize::BITS / 2)).err(),
        Some(PricingError::InvalidDimension)
    );
}

#[test]
fn zeros_refuses_more_bytes_than_can_be_addressed() {
    let cells = 1usize << (usize::BITS - 3);
    assert_eq!(Grid::zeros(cells, 1).err(), Some(PricingError::InvalidDimension));
    assert_eq!(Grid::zeros(1, cells).err(), Some(PricingError::InvalidDimension));
    assert_eq!(Grid::zeros(cells, 0).unwrap().dim(), (cells, 0));
}

#[test]
fn set_then_get_reads_back() {
    let mut g = Grid::zeros(2, 2).unwrap();
    assert_eq!(g.set(1, 0, 42), Ok(()));
    assert_eq!(g.set(0, 1, -7), Ok(()));
    assert_eq!(g.get(0, 0), Some(0));
    assert_eq!(g.get(0, 1), Some(-7));
    assert_eq!(g.get(1, 0), Some(42));
    assert_eq!(g.get(1, 1), Some(0));
    assert_eq!(g.dim(), (2, 2));
}

#[test]
fn get_out_of_bounds_is_none() {
    let g = Grid::zeros(2, 3).unwrap();
    assert_eq!(g.get(2, 0), None);
    assert_eq!(g.get(0, 3), None);
    assert_eq!(g.get(usize::MAX, usize::MAX), None);
}

#[test]
fn set_out_of_bounds_is_refused() {
    let mut g = Grid::zeros(2, 3).unwrap();
    assert_eq!(g.set(2, 0, 1), Err(PricingError::InvalidDimension));
    assert_eq!(g.set(0, 3, 1), Err(PricingError::InvalidDimension));
    for i in 0..2 {
        for j in 0..3 {
            assert_eq!(g.get(i, j), Some(0));
        }
    }
}

#[test]
fn dim_reports_rows_and_columns() {
    let g = generate_matrix(3, 2, vec![1, 2, 3, 4, 5, 6]).unwrap();
    assert_eq!(g.dim(), (3, 2));
}
