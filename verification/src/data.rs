//! Core data model: bins (parallel feature rows and targets), levels, the
//! loaded dataset, and the error type shared by the whole library.

use vstd::prelude::*;

verus! {

/// The failures the training core distinguishes: an empty dataset, rows of
/// uneven width, and an exact score that does not fit the machine integers.
#[derive(Clone, Copy, Debug, PartialEq, Eq, Structural)]
pub enum TreeError {
    NoData,
    ShapeMismatch,
    ScoreOverflow,
}

/// One partition of the dataset: feature rows and, in parallel, the target
/// value of each row.
pub struct Bin {
    pub rows: Vec<Vec<i64>>,
    pub targets: Vec<i64>,
}

/// The mathematical value of a `Bin`.
pub ghost struct BinV {
    pub rows: Seq<Seq<i64>>,
    pub tars: Seq<i64>,
}

impl View for Bin {
    type V = BinV;

    open spec fn view(&self) -> BinV {
        BinV { rows: self.rows.deep_view(), tars: self.targets@ }
    }
}

/// A bin is well formed for width `w` when targets run parallel to rows and
/// every row has exactly `w` values.
pub open spec fn bin_wf(b: BinV, w: nat) -> bool {
    &&& b.tars.len() == b.rows.len()
    &&& forall|i: int| 0 <= i < b.rows.len() ==> (#[trigger] b.rows[i]).len() == w
}

/// A level is an ordered sequence of well-formed bins.
pub open spec fn level_wf(l: Seq<BinV>, w: nat) -> bool {
    forall|i: int| 0 <= i < l.len() ==> bin_wf(#[trigger] l[i], w)
}

/// The mathematical value of a level held as a vector of bins.
pub open spec fn level_view(l: Seq<Bin>) -> Seq<BinV> {
    l.map_values(|b: Bin| b@)
}

/// Total number of rows held by all bins of a level.
pub open spec fn total_rows(l: Seq<BinV>) -> int
    decreases l.len(),
{
    if l.len() == 0 {
        0
    } else {
        total_rows(l.drop_last()) + l.last().rows.len()
    }
}

/// A dataset is shaped correctly when it is empty, or all rows share the
/// width of the first row and that width is at least one (the value at
/// index 0 doubles as the row's target).
pub open spec fn shape_ok(rows: Seq<Seq<i64>>) -> bool {
    rows.len() == 0 || (rows[0].len() >= 1 && forall|i: int|
        0 <= i < rows.len() ==> (#[trigger] rows[i]).len() == rows[0].len())
}

/// The full dataset, loaded once and immutable afterwards. `targets[i]` is
/// `rows[i][0]`.
pub struct Dataset {
    pub rows: Vec<Vec<i64>>,
    pub targets: Vec<i64>,
    pub width: usize,
}

impl Dataset {
    pub open spec fn wf(&self) -> bool {
        &&& self.targets@.len() == self.rows@.len()
        &&& forall|i: int|
            0 <= i < self.rows@.len() ==> (#[trigger] self.rows@[i])@.len() == self.width
        &&& forall|i: int|
            0 <= i < self.rows@.len() ==> self.targets@[i] == (#[trigger] self.rows@[i])@[0]
        &&& self.rows@.len() > 0 ==> self.width >= 1
    }

    /// The single bin of level 0: the whole dataset.
    pub open spec fn whole_bin(&self) -> BinV {
        BinV { rows: self.rows.deep_view(), tars: self.targets@ }
    }

    /// Validates the shape of the rows and derives the parallel target
    /// column. Rejects exactly the datasets whose rows differ in width or
    /// whose rows are empty.
    pub fn new(rows: Vec<Vec<i64>>) -> (r: Result<Dataset, TreeError>)
        ensures
            shape_ok(rows.deep_view()) ==> (r matches Ok(ds)
                && ds.wf()
                && ds.rows.deep_view() == rows.deep_view()
                && ds.width == (if rows@.len() == 0 { 0int } else { rows@[0]@.len() as int })
                && ds.targets@ == Seq::new(rows@.len(), |i: int| rows@[i]@[0])),
            !shape_ok(rows.deep_view()) ==> r == Err::<Dataset, TreeError>(TreeError::ShapeMismatch),
    {
        if rows.len() == 0 {
            return Ok(Dataset { rows, targets: Vec::new(), width: 0 });
        }
        let width = rows[0].len();
        if width == 0 {
            return Err(TreeError::ShapeMismatch);
        }
        let mut targets: Vec<i64> = Vec::new();
        let mut i: usize = 0;
        while i < rows.len()
            invariant
                0 <= i <= rows@.len(),
                width == rows@[0]@.len(),
                width >= 1,
                forall|j: int| 0 <= j < i ==> (#[trigger] rows@[j])@.len() == width,
                targets@ == Seq::new(i as nat, |j: int| rows@[j]@[0]),
            decreases rows@.len() - i,
        {
            if rows[i].len() != width {
                assert(rows.deep_view()[i as int].len() != rows.deep_view()[0].len());
                return Err(TreeError::ShapeMismatch);
            }
            targets.push(rows[i][0]);
            assert(targets@ =~= Seq::new((i + 1) as nat, |j: int| rows@[j]@[0]));
            i += 1;
        }
        Ok(Dataset { rows, targets, width })
    }
}

} // verus!
