//! The execution trace: a table of `height` rows, each mapping the names of
//! `width` program variables to their values at one step.
//!
//! A trace is made empty, filled row by row, and read once it is complete.

use crate::errors::StarkError;
use vstd::hash_map::StringHashMap;
use vstd::prelude::*;

verus! {

/// The name of a program variable.
pub type ProgramVariable = String;

/// One row of the trace: the values of the program variables at one step.
pub struct Row {
    entries: StringHashMap<u64>,
}

impl View for Row {
    type V = Map<Seq<char>, u64>;

    closed spec fn view(&self) -> Map<Seq<char>, u64> {
        self.entries@
    }
}

impl Row {
    /// A row without variables.
    pub fn new() -> (row: Row)
        ensures
            row@ == Map::<Seq<char>, u64>::empty(),
    {
        Row { entries: StringHashMap::new() }
    }

    /// Sets the value of a variable.
    pub fn insert(&mut self, variable: ProgramVariable, value: u64)
        ensures
            final(self)@ == old(self)@.insert(variable@, value),
    {
        self.entries.insert(variable, value);
    }

    /// The value of a variable, if the row has it.
    pub fn get(&self, variable: &str) -> (value: Option<&u64>)
        ensures
            value.is_some() <==> self@.contains_key(variable@),
            value.is_some() ==> *value.unwrap() == self@[variable@],
    {
        self.entries.get(variable)
    }

    /// The number of variables.
    pub fn len(&self) -> (n: usize)
        ensures
            n == self@.len(),
    {
        self.entries.len()
    }
}

/// The value between `val1` and `val2` at `t` percent of the way, rounded
/// down.
pub open spec fn interpolated(val1: int, val2: int, t: int) -> int {
    val1 + ((val2 - val1) * t) / 100
}

/// The execution trace of a program.
pub struct ExecutionTrace {
    /// The number of steps that the trace is made for.
    pub height: u64,
    /// The number of program variables in each row.
    pub width: u64,
    /// The rows inserted so far, in order.
    pub trace: Vec<Row>,
}

impl ExecutionTrace {
    /// No more rows than the height, each with as many variables as the
    /// width.
    pub open spec fn wf(&self) -> bool {
        &&& self.trace@.len() <= self.height
        &&& forall|i: int| 0 <= i < self.trace@.len() ==> (#[trigger] self.trace@[i])@.len() == self.width
    }

    /// All rows have been inserted.
    pub open spec fn is_complete(&self) -> bool {
        self.trace@.len() == self.height
    }

    /// The variables and values of row `i`.
    pub open spec fn row(&self, i: int) -> Map<Seq<char>, u64> {
        self.trace@[i]@
    }

    /// An empty trace for `height` steps of `width` variables.
    pub fn new(height: u64, width: u64) -> (trace: Self)
        ensures
            trace.wf(),
            trace.height == height,
            trace.width == width,
            trace.trace@.len() == 0,
    {
        Self { height, width, trace: Vec::new() }
    }

    /// Appends a row.  A row whose number of variables is not the width is
    /// refused, and so is any row once the trace is complete.
    pub fn insert_column(&mut self, column: Row) -> (r: Result<(), StarkError>)
        ensures
            old(self).wf() ==> final(self).wf(),
            final(self).height == old(self).height,
            final(self).width == old(self).width,
            column@.len() != old(self).width ==> r == Err::<(), StarkError>(
                StarkError::WidthMismatch,
            ),
            column@.len() == old(self).width && old(self).trace@.len() >= old(self).height ==> r
                == Err::<(), StarkError>(StarkError::TraceFull),
            column@.len() == old(self).width && old(self).trace@.len() < old(self).height
                ==> r.is_ok(),
            r.is_ok() ==> final(self).trace@ == old(self).trace@.push(column),
            r.is_err() ==> final(self).trace@ == old(self).trace@,
    {
        if column.len() as u64 != self.width {
            return Err(StarkError::WidthMismatch);
        }
        if self.trace.len() as u64 >= self.height {
            return Err(StarkError::TraceFull);
        }
        self.trace.push(column);
        Ok(())
    }

    /// The row at `index`, once the trace is complete.
    pub fn get_column(&self, index: u64) -> (r: Result<&Row, StarkError>)
        ensures
            r.is_ok() <==> self.is_complete() && index < self.height,
            r.is_err() ==> r == Err::<&Row, StarkError>(StarkError::OutOfRange),
            r.is_ok() ==> *r.unwrap() == self.trace@[index as int],
    {
        if self.trace.len() as u64 != self.height || index >= self.height {
            return Err(StarkError::OutOfRange);
        }
        Ok(&self.trace[index as usize])
    }

    /// The value of a variable between two steps: at `t` percent of the way
    /// from its value at `step1` to its value at `step2`, rounded down.
    ///
    /// The trace must be complete and both steps in it, the variable in both
    /// rows, `t` at most 100, and the value must not fall from the first step
    /// to the second.
    pub fn interpolate(&self, variable: &ProgramVariable, step1: u64, step2: u64, t: u8) -> (value:
        u64)
        requires
            self.is_complete(),
            step1 < self.height,
            step2 < self.height,
            t <= 100,
            self.row(step1 as int).contains_key(variable@),
            self.row(step2 as int).contains_key(variable@),
            self.row(step1 as int)[variable@] <= self.row(step2 as int)[variable@],
            (self.row(step2 as int)[variable@] - self.row(step1 as int)[variable@]) * t
                <= u64::MAX,
        ensures
            value == interpolated(
                self.row(step1 as int)[variable@] as int,
                self.row(step2 as int)[variable@] as int,
                t as int,
            ),
    {
        assert(step1 < self.trace.len() && step2 < self.trace.len());
        let col1 = &self.trace[step1 as usize];
        let col2 = &self.trace[step2 as usize];
        assert(col1@ == self.row(step1 as int) && col2@ == self.row(step2 as int));
        let val1 = *col1.get(variable.as_str()).unwrap();
        let val2 = *col2.get(variable.as_str()).unwrap();
        let diff = val2 - val1;
        let scaled_diff = (diff * (t as u64)) / 100;
        assert(scaled_diff <= diff) by (nonlinear_arith)
            requires
                scaled_diff == (diff * (t as u64)) / 100,
                t <= 100,
        ;
        val1 + scaled_diff
    }

    /// The values that a printed table of the trace shows: for each row, the
    /// value of each of the given variables, and zero where the row does not
    /// have it.
    pub fn table(&self, variables: &Vec<ProgramVariable>) -> (cells: Vec<Vec<u64>>)
        requires
            self.is_complete(),
        ensures
            cells.len() == self.height,
            forall|i: int|
                0 <= i < cells.len() ==> (#[trigger] cells[i]).len() == variables.len(),
            forall|i: int, j: int|
                0 <= i < cells.len() && 0 <= j < variables.len() ==> cells[i][j] == cell_value(
                    self.row(i),
                    variables[j]@,
                ),
    {
        let mut cells: Vec<Vec<u64>> = Vec::new();
        let mut i: usize = 0;
        while i < self.trace.len()
            invariant
                i <= self.trace.len(),
                cells.len() == i,
                forall|k: int| 0 <= k < i ==> (#[trigger] cells[k]).len() == variables.len(),
                forall|k: int, j: int|
                    0 <= k < i && 0 <= j < variables.len() ==> cells[k][j] == cell_value(
                        self.row(k),
                        variables[j]@,
                    ),
            decreases self.trace.len() - i,
        {
            let column = &self.trace[i];
            let mut line: Vec<u64> = Vec::new();
            let mut j: usize = 0;
            while j < variables.len()
                invariant
                    j <= variables.len(),
                    line.len() == j,
                    *column == self.trace@[i as int],
                    forall|k: int|
                        0 <= k < j ==> line[k] == cell_value(column@, variables[k]@),
                decreases variables.len() - j,
            {
                let value = match column.get(variables[j].as_str()) {
                    Some(v) => *v,
                    None => 0,
                };
                line.push(value);
                j += 1;
            }
            cells.push(line);
            i += 1;
        }
        cells
    }
}

/// The value of a variable in a row, and zero where the row does not have
/// it.
pub open spec fn cell_value(row: Map<Seq<char>, u64>, variable: Seq<char>) -> u64 {
    if row.contains_key(variable) {
        row[variable]
    } else {
        0
    }
}

} // verus!
