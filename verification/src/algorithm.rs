//! The modulation algorithm: which operator modulates which, and which
//! operators are heard.
//!
//! An algorithm is a square table of optional feedback depths, one row per
//! modulated operator and one column per modulating operator, together with
//! the list of carriers. An entry `Some(1)` is a direct connection; an entry
//! `Some(n)` with `n > 1` is a feedback connection that is followed `n - 1`
//! times before it is cut.

use vstd::prelude::*;

verus! {

/// Why an algorithm could not be built.
#[derive(Debug, Clone, Copy, PartialEq, Eq, Structural)]
pub enum ConfigurationError {
    /// Some row of the matrix does not have as many entries as there are rows.
    NonSquareMatrix,
    /// The largest carrier index does not name an operator.
    CarrierOutOfBounds { carrier: usize, num_operators: usize },
}

/// Operator connections of the synthesizer.
///
/// `matrix[i][j] == Some(n)` means that operator `j` modulates operator `i`
/// with feedback depth `n`; `carriers` lists the operators that are summed
/// into the output.
#[derive(Clone, Debug)]
pub struct Algorithm {
    pub matrix: Vec<Vec<Option<usize>>>,
    pub carriers: Vec<usize>,
}

/// Mathematical content of an [`Algorithm`].
pub struct AlgorithmView {
    pub matrix: Seq<Seq<Option<usize>>>,
    pub carriers: Seq<usize>,
}

/// An operator at one level of unrolling.
pub struct NodeKey {
    pub operator: int,
    pub level: int,
}

/// The larger of two levels.
pub open spec fn higher(a: nat, b: nat) -> nat {
    if a >= b {
        a
    } else {
        b
    }
}

/// Number of times the connection of a matrix entry is followed back into
/// the graph: one less than its depth, and zero for an empty entry or a
/// depth of zero.
pub open spec fn entry_level(entry: Option<usize>) -> nat {
    match entry {
        Some(n) => if n >= 1 {
            (n - 1) as nat
        } else {
            0
        },
        None => 0,
    }
}

/// Largest [`entry_level`] in a row.
pub open spec fn row_level(row: Seq<Option<usize>>) -> nat
    decreases row.len(),
{
    if row.len() == 0 {
        0
    } else {
        higher(row_level(row.drop_last()), entry_level(row.last()))
    }
}

/// Largest [`entry_level`] in a list of rows.
pub open spec fn rows_level(rows: Seq<Seq<Option<usize>>>) -> nat
    decreases rows.len(),
{
    if rows.len() == 0 {
        0
    } else {
        higher(rows_level(rows.drop_last()), row_level(rows.last()))
    }
}

impl AlgorithmView {
    /// Number of operators that the matrix speaks of.
    pub open spec fn num_operators(self) -> nat {
        self.matrix.len()
    }

    /// Every row has as many entries as there are rows.
    pub open spec fn is_square(self) -> bool {
        forall|i: int|
            0 <= i < self.matrix.len() ==> (#[trigger] self.matrix[i]).len() == self.matrix.len()
    }

    /// Every carrier names an operator.
    pub open spec fn carriers_in_range(self) -> bool {
        forall|k: int|
            0 <= k < self.carriers.len() ==> (#[trigger] self.carriers[k]) < self.matrix.len()
    }

    /// The invariant of an algorithm: a square matrix and valid carriers.
    pub open spec fn well_formed(self) -> bool {
        self.is_square() && self.carriers_in_range()
    }

    /// `carrier` is the largest entry of the carrier list.
    pub open spec fn is_largest_carrier(self, carrier: usize) -> bool {
        &&& exists|k: int| 0 <= k < self.carriers.len() && #[trigger] self.carriers[k] == carrier
        &&& forall|k: int| 0 <= k < self.carriers.len() ==> #[trigger] self.carriers[k] <= carrier
    }

    /// Depth to which the graph is unrolled: the largest [`entry_level`] of
    /// the matrix, and zero for a matrix without connections.
    pub open spec fn max_level(self) -> nat {
        rows_level(self.matrix)
    }
}

/// Mathematical content of a matrix.
pub open spec fn matrix_view(matrix: Vec<Vec<Option<usize>>>) -> Seq<Seq<Option<usize>>> {
    Seq::new(matrix@.len(), |i: int| matrix@[i]@)
}

/// Mathematical content of a matrix and a carrier list.
pub open spec fn view_of(matrix: Vec<Vec<Option<usize>>>, carriers: Vec<usize>) -> AlgorithmView {
    AlgorithmView { matrix: matrix_view(matrix), carriers: carriers@ }
}

/// The square matrix for `n` operators without any connection.
pub open spec fn blank_matrix(n: nat) -> Seq<Seq<Option<usize>>> {
    Seq::new(n, |i: int| Seq::new(n, |j: int| None::<usize>))
}

/// `matrix` with the connection from `source` to `target` set to `depth`.
pub open spec fn with_connection(
    matrix: Seq<Seq<Option<usize>>>,
    target: int,
    source: int,
    depth: usize,
) -> Seq<Seq<Option<usize>>> {
    matrix.update(target, matrix[target].update(source, Some(depth)))
}

/// The carrier list of the default algorithms: operator 0 alone, or nothing
/// where there is no operator.
pub open spec fn default_carriers(n: nat) -> Seq<usize> {
    if n > 0 {
        seq![0usize]
    } else {
        Seq::empty()
    }
}

impl View for Algorithm {
    type V = AlgorithmView;

    open spec fn view(&self) -> AlgorithmView {
        view_of(self.matrix, self.carriers)
    }
}

/// No entry of a row lies above the row's level, and a positive level is the
/// level of some entry.
pub proof fn lemma_row_level_is_maximum(row: Seq<Option<usize>>)
    ensures
        forall|j: int| 0 <= j < row.len() ==> entry_level(#[trigger] row[j]) <= row_level(row),
        row_level(row) > 0 ==> exists|j: int|
            0 <= j < row.len() && entry_level(#[trigger] row[j]) == row_level(row),
    decreases row.len(),
{
    if row.len() > 0 {
        let init = row.drop_last();
        lemma_row_level_is_maximum(init);
        assert forall|j: int| 0 <= j < row.len() implies entry_level(#[trigger] row[j])
            <= row_level(row) by {
            if j < row.len() - 1 {
                assert(row[j] == init[j]);
            }
        }
        if row_level(row) > 0 {
            if row_level(row) == entry_level(row.last()) {
                assert(entry_level(row[row.len() - 1]) == row_level(row));
            } else {
                let j = choose|j: int|
                    0 <= j < init.len() && entry_level(#[trigger] init[j]) == row_level(init);
                assert(row[j] == init[j]);
            }
        }
    }
}

/// The level of unrolling is the maximum over the matrix: no entry lies above
/// it, and a positive level is the level of some entry.
pub proof fn lemma_max_level_is_maximum(a: AlgorithmView)
    ensures
        forall|i: int, j: int|
            0 <= i < a.matrix.len() && 0 <= j < a.matrix[i].len() ==> entry_level(
                #[trigger] a.matrix[i][j],
            ) <= a.max_level(),
        a.max_level() > 0 ==> exists|i: int, j: int|
            0 <= i < a.matrix.len() && 0 <= j < a.matrix[i].len() && entry_level(
                #[trigger] a.matrix[i][j],
            ) == a.max_level(),
{
    lemma_rows_level_is_maximum(a.matrix);
}

proof fn lemma_rows_level_is_maximum(rows: Seq<Seq<Option<usize>>>)
    ensures
        forall|i: int, j: int|
            0 <= i < rows.len() && 0 <= j < rows[i].len() ==> entry_level(#[trigger] rows[i][j])
                <= rows_level(rows),
        rows_level(rows) > 0 ==> exists|i: int, j: int|
            0 <= i < rows.len() && 0 <= j < rows[i].len() && entry_level(#[trigger] rows[i][j])
                == rows_level(rows),
    decreases rows.len(),
{
    if rows.len() > 0 {
        let init = rows.drop_last();
        lemma_rows_level_is_maximum(init);
        lemma_row_level_is_maximum(rows.last());
        assert forall|i: int, j: int|
            0 <= i < rows.len() && 0 <= j < rows[i].len() implies entry_level(
            #[trigger] rows[i][j],
        ) <= rows_level(rows) by {
            if i < rows.len() - 1 {
                assert(rows[i] == init[i]);
            }
        }
        if rows_level(rows) > 0 {
            if rows_level(rows) == row_level(rows.last()) {
                let i = rows.len() - 1;
                let j = choose|j: int|
                    0 <= j < rows.last().len() && entry_level(#[trigger] rows.last()[j])
                        == row_level(rows.last());
                assert(entry_level(rows[i][j]) == rows_level(rows));
            } else {
                let (i, j) = choose|i: int, j: int|
                    0 <= i < init.len() && 0 <= j < init[i].len() && entry_level(
                        #[trigger] init[i][j],
                    ) == rows_level(init);
                assert(rows[i] == init[i]);
                assert(entry_level(rows[i][j]) == rows_level(rows));
            }
        }
    }
}

impl Algorithm {
    /// Builds an algorithm from a matrix and a carrier list.
    ///
    /// The matrix must be square and every carrier must name an operator.
    /// A matrix that is not square is reported first; otherwise the largest
    /// carrier is reported if it is out of range.
    pub fn new(matrix: Vec<Vec<Option<usize>>>, carriers: Vec<usize>) -> (result: Result<
        Self,
        ConfigurationError,
    >)
        ensures
            match result {
                Ok(algorithm) => {
                    &&& algorithm.matrix == matrix
                    &&& algorithm.carriers == carriers
                    &&& algorithm@.well_formed()
                },
                Err(ConfigurationError::NonSquareMatrix) => !view_of(matrix, carriers).is_square(),
                Err(ConfigurationError::CarrierOutOfBounds { carrier, num_operators }) => {
                    &&& view_of(matrix, carriers).is_square()
                    &&& num_operators == matrix.len()
                    &&& carrier >= num_operators
                    &&& view_of(matrix, carriers).is_largest_carrier(carrier)
                },
            },
    {
        let num_ops = matrix.len();
        let ghost view = view_of(matrix, carriers);
        let mut row: usize = 0;
        while row < num_ops
            invariant
                num_ops == matrix.len(),
                row <= num_ops,
                view == view_of(matrix, carriers),
                forall|i: int| 0 <= i < row ==> (#[trigger] view.matrix[i]).len() == num_ops,
            decreases num_ops - row,
        {
            if matrix[row].len() != num_ops {
                assert(view.matrix[row as int].len() != num_ops);
                return Err(ConfigurationError::NonSquareMatrix);
            }
            row += 1;
        }
        if carriers.len() > 0 {
            let mut largest: usize = carriers[0];
            let mut k: usize = 1;
            while k < carriers.len()
                invariant
                    1 <= k <= carriers.len(),
                    exists|j: int| 0 <= j < k && #[trigger] carriers@[j] == largest,
                    forall|j: int| 0 <= j < k ==> #[trigger] carriers@[j] <= largest,
                decreases carriers.len() - k,
            {
                if carriers[k] > largest {
                    largest = carriers[k];
                }
                k += 1;
            }
            if largest >= num_ops {
                proof {
                    let j = choose|j: int| 0 <= j < k && #[trigger] carriers@[j] == largest;
                    assert(view.carriers[j] == largest);
                }
                return Err(
                    ConfigurationError::CarrierOutOfBounds { carrier: largest, num_operators: num_ops },
                );
            }
        }
        Ok(Self { matrix, carriers })
    }

    /// Depth to which the modulation graph is unrolled: one less than the
    /// largest depth in the matrix, and zero where the matrix holds no depth
    /// above one.
    pub fn max_level(&self) -> (level: usize)
        ensures
            level == self@.max_level(),
    {
        let mut best: usize = 0;
        let mut i: usize = 0;
        while i < self.matrix.len()
            invariant
                i <= self.matrix.len(),
                best == rows_level(self@.matrix.take(i as int)),
            decreases self.matrix.len() - i,
        {
            let row = &self.matrix[i];
            let mut row_best: usize = 0;
            let mut j: usize = 0;
            while j < row.len()
                invariant
                    j <= row.len(),
                    row_best == row_level(row@.take(j as int)),
                decreases row.len() - j,
            {
                assert(row@.take(j + 1).drop_last() == row@.take(j as int));
                if let Some(n) = row[j] {
                    if n >= 1 && n - 1 > row_best {
                        row_best = n - 1;
                    }
                }
                j += 1;
            }
            assert(row@.take(row.len() as int) == row@);
            assert(self@.matrix.take(i + 1).drop_last() == self@.matrix.take(i as int));
            assert(self@.matrix.take(i + 1).last() == row@);
            if row_best > best {
                best = row_best;
            }
            i += 1;
        }
        assert(self@.matrix.take(self.matrix.len() as int) == self@.matrix);
        best
    }
}

/// A row of `n` empty entries.
fn blank_row(n: usize) -> (row: Vec<Option<usize>>)
    ensures
        row@ == Seq::new(n as nat, |j: int| None::<usize>),
{
    let mut row: Vec<Option<usize>> = Vec::new();
    let mut j: usize = 0;
    while j < n
        invariant
            j <= n,
            row@ == Seq::new(j as nat, |j: int| None::<usize>),
        decreases n - j,
    {
        row.push(None);
        j += 1;
    }
    row
}

/// The matrix of `n` operators without connections, but for the connection
/// from `source` to operator 0 where a depth is given for it.
fn default_matrix(n: usize, connection: Option<(usize, usize)>) -> (matrix: Vec<
    Vec<Option<usize>>,
>)
    requires
        connection matches Some((source, depth)) ==> source < n,
    ensures
        matrix_view(matrix) == match connection {
            Some((source, depth)) => with_connection(blank_matrix(n as nat), 0, source as int, depth),
            None => blank_matrix(n as nat),
        },
{
    let mut matrix: Vec<Vec<Option<usize>>> = Vec::new();
    let mut i: usize = 0;
    let ghost wanted = match connection {
        Some((source, depth)) => with_connection(blank_matrix(n as nat), 0, source as int, depth),
        None => blank_matrix(n as nat),
    };
    while i < n
        invariant
            i <= n,
            connection matches Some((source, depth)) ==> source < n,
            wanted == match connection {
                Some((source, depth)) => with_connection(
                    blank_matrix(n as nat),
                    0,
                    source as int,
                    depth,
                ),
                None => blank_matrix(n as nat),
            },
            matrix@.len() == i,
            forall|r: int| 0 <= r < i ==> (#[trigger] matrix@[r])@ == wanted[r],
        decreases n - i,
    {
        let mut row = blank_row(n);
        if i == 0 {
            if let Some((source, depth)) = connection {
                row[source] = Some(depth);
            }
        }
        matrix.push(row);
        i += 1;
    }
    assert(matrix_view(matrix) =~= wanted);
    matrix
}

impl Algorithm {
    /// Operator 0 as the only carrier, without modulation.
    pub fn default_simple(num_operators: usize) -> (result: Result<Self, ConfigurationError>)
        ensures
            result matches Ok(algorithm) && {
                &&& algorithm@.matrix == blank_matrix(num_operators as nat)
                &&& algorithm@.carriers == default_carriers(num_operators as nat)
                &&& algorithm@.well_formed()
            },
    {
        let matrix = default_matrix(num_operators, None);
        let mut carriers: Vec<usize> = Vec::new();
        if num_operators > 0 {
            carriers.push(0);
        }
        assert(carriers@ =~= default_carriers(num_operators as nat));
        assert(view_of(matrix, carriers).well_formed());
        Self::new(matrix, carriers)
    }

    /// A stack of two operators: operator 1 modulates operator 0, the only
    /// carrier. With fewer than two operators this is
    /// [`Algorithm::default_simple`].
    pub fn default_stack_2(num_operators: usize) -> (result: Result<Self, ConfigurationError>)
        ensures
            result matches Ok(algorithm) && {
                &&& algorithm@.matrix == if num_operators < 2 {
                    blank_matrix(num_operators as nat)
                } else {
                    with_connection(blank_matrix(num_operators as nat), 0, 1, 1)
                }
                &&& algorithm@.carriers == default_carriers(num_operators as nat)
                &&& algorithm@.well_formed()
            },
    {
        if num_operators < 2 {
            return Self::default_simple(num_operators);
        }
        let matrix = default_matrix(num_operators, Some((1, 1)));
        let mut carriers: Vec<usize> = Vec::new();
        carriers.push(0);
        assert(carriers@ =~= default_carriers(num_operators as nat));
        assert(view_of(matrix, carriers).well_formed());
        Self::new(matrix, carriers)
    }

    /// Operator 0 as the only carrier, feeding back into itself once. Without
    /// operators this is [`Algorithm::default_simple`].
    pub fn default_feedback_1(num_operators: usize) -> (result: Result<Self, ConfigurationError>)
        ensures
            result matches Ok(algorithm) && {
                &&& algorithm@.matrix == if num_operators < 1 {
                    blank_matrix(num_operators as nat)
                } else {
                    with_connection(blank_matrix(num_operators as nat), 0, 0, 2)
                }
                &&& algorithm@.carriers == default_carriers(num_operators as nat)
                &&& algorithm@.well_formed()
            },
    {
        if num_operators < 1 {
            return Self::default_simple(num_operators);
        }
        let matrix = default_matrix(num_operators, Some((0, 2)));
        let mut carriers: Vec<usize> = Vec::new();
        carriers.push(0);
        assert(carriers@ =~= default_carriers(num_operators as nat));
        assert(view_of(matrix, carriers).well_formed());
        Self::new(matrix, carriers)
    }
}

} // verus!
