use hnsw::params::DEFAULT_EF_CONSTRUCTION;
use hnsw::{Hnsw, Params, SquaredEuclidean};

#[test]
fn default_beam_width_is_four_hundred() {
    assert_eq!(DEFAULT_EF_CONSTRUCTION, 400);
    assert_eq!(Params::new().beam_width(), 400);
}

#[test]
fn setter_replaces_the_beam_width() {
    let p = Params::new().ef_construction(17);
    assert_eq!(p.beam_width(), 17);
    let q = p.ef_construction(3).ef_construction(250);
    assert_eq!(q.beam_width(), 250);
    // the value it was built from is unchanged
    assert_eq!(p.beam_width(), 17);
}

#[test]
fn index_keeps_its_parameters() {
    let g: Hnsw<Vec<i32>, SquaredEuclidean> = Hnsw::new(SquaredEuclidean);
    assert_eq!(g.ef_construction(), 400);
    assert_eq!(g.construction_width(), 400);
    let g: Hnsw<Vec<i32>, SquaredEuclidean> =
        Hnsw::new_params(SquaredEuclidean, Params::new().ef_construction(8));
    assert_eq!(g.ef_construction(), 8);
    assert_eq!(g.construction_width(), 8);
}

#[test]
fn zero_beam_width_builds_with_one() {
    let g: Hnsw<Vec<i32>, SquaredEuclidean> =
        Hnsw::new_params(SquaredEuclidean, Params::new().ef_construction(0));
    assert_eq!(g.ef_construction(), 0);
    assert_eq!(g.construction_width(), 1);
}

#[test]
fn default_parameters_are_the_new_ones() {
    assert_eq!(Params::default().beam_width(), Params::new().beam_width());
    assert_eq!(Params::default().beam_width(), 400);
}
