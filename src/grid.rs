use vstd::prelude::*;
use vstd::set_lib::{lemma_int_range, lemma_len_subset, lemma_len_union, lemma_map_size_bound, set_int_range};

verus! {

/// All cells of a `w` by `h` board.
pub open spec fn grid(w: int, h: int) -> Set<(int, int)> {
    Set::new(|c: (int, int)| 0 <= c.0 < w && 0 <= c.1 < h)
}

/// A `w` by `h` board has finitely many cells, at most `w * h`.
pub proof fn lemma_grid_size(w: int, h: int)
    requires
        w >= 0,
        h >= 0,
    ensures
        grid(w, h).finite(),
        grid(w, h).len() <= w * h,
    decreases h,
{
    if h == 0 {
        assert(grid(w, h) =~= Set::empty());
    } else {
        lemma_grid_size(w, h - 1);
        let f = |x: int| (x, h - 1);
        let row = set_int_range(0, w).map(f);
        lemma_int_range(0, w);
        lemma_map_size_bound(set_int_range(0, w), row, f);
        assert forall|c: (int, int)| #[trigger] grid(w, h).contains(c) implies grid(w, h - 1).union(
            row,
        ).contains(c) by {
            if c.1 == h - 1 {
                assert(set_int_range(0, w).contains(c.0));
                assert(f(c.0) == c);
            }
        }
        assert(grid(w, h) =~= grid(w, h - 1).union(row));
        lemma_len_union(grid(w, h - 1), row);
        assert(w * h == w * (h - 1) + w) by (nonlinear_arith);
    }
}

/// A set of cells of a `w` by `h` board is finite and holds at most `w * h` cells.
pub proof fn lemma_cells_bounded(s: Set<(int, int)>, w: int, h: int)
    requires
        w >= 0,
        h >= 0,
        s.subset_of(grid(w, h)),
    ensures
        s.finite(),
        s.len() <= w * h,
{
    lemma_grid_size(w, h);
    vstd::set_lib::lemma_set_subset_finite(grid(w, h), s);
    lemma_len_subset(s, grid(w, h));
}

} // verus!
