use vstd::prelude::*;
use crate::rational::Rat;
use crate::sums::rats_wf;
use crate::design::copy_rats;
use crate::error::StatError;

verus! {

/// The values of one column: a homogeneous numeric or categorical
/// vector.
pub enum ColumnData {
    Numeric(Vec<Rat>),
    Categorical(Vec<String>),
}

/// One named column of a dataset.
pub struct Column {
    pub name: String,
    pub data: ColumnData,
}

/// A rectangular dataset: an ordered sequence of named columns of equal
/// length.  It is borrowed, never mutated, for the duration of one
/// analysis.
pub struct Dataset {
    pub columns: Vec<Column>,
}

/// The number of rows a column holds.
pub open spec fn col_len(c: Column) -> int {
    match c.data {
        ColumnData::Numeric(v) => v@.len() as int,
        ColumnData::Categorical(v) => v@.len() as int,
    }
}

/// The column at `i` is numeric, holds well-formed rationals, and its
/// values are `v`.
pub open spec fn numeric_at(ds: Dataset, i: int, v: Seq<Rat>) -> bool {
    &&& 0 <= i < ds.columns@.len()
    &&& ds.columns@[i].data matches ColumnData::Numeric(d) && d@ == v && rats_wf(d@)
}

/// The column at `i` is categorical and its values are `v`.
pub open spec fn categorical_at(ds: Dataset, i: int, v: Seq<String>) -> bool {
    &&& 0 <= i < ds.columns@.len()
    &&& ds.columns@[i].data matches ColumnData::Categorical(d) && d@ == v
}

impl Dataset {
    /// All columns share one row count and numeric values are
    /// well-formed.
    pub open spec fn wf(&self) -> bool {
        &&& forall|i: int|
            0 <= i < self.columns@.len() ==> col_len(#[trigger] self.columns@[i]) == col_len(
                self.columns@[0],
            )
        &&& forall|i: int|
            0 <= i < self.columns@.len() ==> match (#[trigger] self.columns@[i]).data {
                ColumnData::Numeric(d) => rats_wf(d@),
                ColumnData::Categorical(_) => true,
            }
    }

    /// Wrap a list of columns; fails exactly when two columns disagree
    /// on their length.
    pub fn new(columns: Vec<Column>) -> (r: Result<Dataset, StatError>)
        requires
            forall|i: int|
                0 <= i < columns@.len() ==> match (#[trigger] columns@[i]).data {
                    ColumnData::Numeric(d) => rats_wf(d@),
                    ColumnData::Categorical(_) => true,
                },
        ensures
            r is Err ==> r->Err_0 == StatError::InputError,
            (r is Ok) <==> (forall|i: int|
                0 <= i < columns@.len() ==> col_len(#[trigger] columns@[i]) == col_len(
                    columns@[0],
                )),
            r is Ok ==> r->Ok_0.wf() && r->Ok_0.columns@ == columns@,
    {
        let k: usize = columns.len();
        let mut ok: bool = true;
        let mut i: usize = 0;
        while i < k
            invariant
                0 <= i <= k,
                k == columns@.len(),
                ok <==> (forall|t: int|
                    0 <= t < i as int ==> col_len(#[trigger] columns@[t]) == col_len(
                        columns@[0],
                    )),
            decreases k - i,
        {
            let li: usize = match &columns[i].data {
                ColumnData::Numeric(v) => v.len(),
                ColumnData::Categorical(v) => v.len(),
            };
            let l0: usize = match &columns[0].data {
                ColumnData::Numeric(v) => v.len(),
                ColumnData::Categorical(v) => v.len(),
            };
            if li != l0 {
                ok = false;
            }
            i = i + 1;
        }
        if ok {
            Ok(Dataset { columns })
        } else {
            Err(StatError::InputError)
        }
    }

    /// The shared row count.
    pub fn n_rows(&self) -> (n: usize)
        requires
            self.wf(),
        ensures
            self.columns@.len() > 0 ==> n as int == col_len(self.columns@[0]),
            self.columns@.len() == 0 ==> n == 0,
    {
        if self.columns.len() == 0 {
            return 0;
        }
        match &self.columns[0].data {
            ColumnData::Numeric(v) => v.len(),
            ColumnData::Categorical(v) => v.len(),
        }
    }

    /// The values of the first numeric column with the given name;
    /// `InputError` exactly when no numeric column carries it.
    pub fn numeric_column(&self, name: &String) -> (r: Result<Vec<Rat>, StatError>)
        requires
            self.wf(),
        ensures
            r is Err ==> r->Err_0 == StatError::InputError,
            (r is Ok) <==> (exists|i: int|
                0 <= i < self.columns@.len() && (#[trigger] self.columns@[i]).name@ == name@
                    && self.columns@[i].data is Numeric),
            r is Ok ==> rats_wf(r->Ok_0@) && exists|i: int|
                #[trigger] numeric_at(*self, i, r->Ok_0@) && self.columns@[i].name@ == name@,
    {
        let k: usize = self.columns.len();
        let mut i: usize = 0;
        while i < k
            invariant
                0 <= i <= k,
                k == self.columns@.len(),
                self.wf(),
                forall|t: int|
                    0 <= t < i as int ==> !((#[trigger] self.columns@[t]).name@ == name@
                        && self.columns@[t].data is Numeric),
            decreases k - i,
        {
            if self.columns[i].name.eq(name) {
                match &self.columns[i].data {
                    ColumnData::Numeric(v) => {
                        let out: Vec<Rat> = copy_rats(v);
                        proof {
                            assert(match self.columns@[i as int].data {
                                ColumnData::Numeric(d) => rats_wf(d@),
                                ColumnData::Categorical(_) => true,
                            });
                            assert(rats_wf(out@));
                            assert(numeric_at(*self, i as int, out@));
                            assert(self.columns@[i as int].name@ == name@);
                        }
                        return Ok(out);
                    },
                    ColumnData::Categorical(_) => {
                    },
                }
            }
            i = i + 1;
        }
        Err(StatError::InputError)
    }

    /// The values of the first categorical column with the given name;
    /// `InputError` exactly when no categorical column carries it.
    pub fn categorical_column(&self, name: &String) -> (r: Result<Vec<String>, StatError>)
        requires
            self.wf(),
        ensures
            r is Err ==> r->Err_0 == StatError::InputError,
            (r is Ok) <==> (exists|i: int|
                0 <= i < self.columns@.len() && (#[trigger] self.columns@[i]).name@ == name@
                    && self.columns@[i].data is Categorical),
            r is Ok ==> exists|i: int|
                categorical_at(*self, i, r->Ok_0@) && (#[trigger] self.columns@[i]).name@
                    == name@,
    {
        let k: usize = self.columns.len();
        let mut i: usize = 0;
        while i < k
            invariant
                0 <= i <= k,
                k == self.columns@.len(),
                self.wf(),
                forall|t: int|
                    0 <= t < i as int ==> !((#[trigger] self.columns@[t]).name@ == name@
                        && self.columns@[t].data is Categorical),
            decreases k - i,
        {
            if self.columns[i].name.eq(name) {
                match &self.columns[i].data {
                    ColumnData::Categorical(v) => {
                        let out: Vec<String> = copy_strings(v);
                        proof {
                            assert(categorical_at(*self, i as int, out@));
                            assert(self.columns@[i as int].name@ == name@);
                            assert(exists|ii: int|
                                categorical_at(*self, ii, out@) && (#[trigger] self.columns@[
                                    ii
                                ]).name@ == name@);
                        }
                        return Ok(out);
                    },
                    ColumnData::Numeric(_) => {
                    },
                }
            }
            i = i + 1;
        }
        Err(StatError::InputError)
    }
}

/// An owned copy of a vector of strings.
fn copy_strings(v: &Vec<String>) -> (out: Vec<String>)
    ensures
        out@ == v@,
{
    let n: usize = v.len();
    let mut out: Vec<String> = Vec::new();
    let mut i: usize = 0;
    while i < n
        invariant
            0 <= i <= n,
            n == v@.len(),
            out@.len() == i as int,
            forall|t: int| 0 <= t < i as int ==> out@[t] == v@[t],
        decreases n - i,
    {
        out.push(v[i].clone());
        i = i + 1;
    }
    proof {
        assert(out@ =~= v@);
    }
    out
}

} // verus!
