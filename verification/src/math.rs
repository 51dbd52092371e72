//! Dense boolean matrices and vectors, and vectors of optional offsets:
//! the linear algebra that one step of an automaton is written in.
use vstd::prelude::*;

verus! {

/// A dense boolean matrix of fixed dimensions, stored row by row.
#[derive(Debug)]
pub struct BitMatrix {
    size_i: usize,
    size_j: usize,
    el: Vec<bool>,
}

/// A dense boolean vector of fixed size.
#[derive(Debug)]
pub struct BitVector {
    size: usize,
    el: Vec<bool>,
}

/// A dense vector whose elements are either unreachable (`None`) or the
/// input offset from which a state was reached.
#[derive(Debug)]
pub struct NfaVector {
    size: usize,
    el: Vec<Option<usize>>,
}

/// A vector of `n` times `false`.
pub open spec fn all_false(n: nat) -> Seq<bool> {
    Seq::new(n, |i: int| false)
}

/// Whether some index is set in both `a` and `b`.
pub open spec fn meet(a: Seq<bool>, b: Seq<bool>) -> bool {
    exists|k: int| 0 <= k < a.len() && k < b.len() && #[trigger] a[k] && b[k]
}

/// The elementwise disjunction of two vectors of one length.
pub open spec fn join(a: Seq<bool>, b: Seq<bool>) -> Seq<bool> {
    Seq::new(a.len(), |k: int| a[k] || b[k])
}

/// A vector of `n` times unreachable.
pub open spec fn all_none(n: nat) -> Seq<Option<usize>> {
    Seq::new(n, |i: int| None)
}

/// The smaller of two offsets, where unreachable is larger than any offset.
pub open spec fn min_option(a: Option<usize>, b: Option<usize>) -> Option<usize> {
    match (a, b) {
        (None, None) => None,
        (Some(x), None) => Some(x),
        (None, Some(y)) => Some(y),
        (Some(x), Some(y)) => Some(if x <= y { x } else { y }),
    }
}

/// Whether `r` is the least offset that `v` holds at an index where `gate`
/// is set: unreachable if `v` holds none there.
pub open spec fn least_gated(r: Option<usize>, gate: Seq<bool>, v: Seq<Option<usize>>) -> bool {
    match r {
        None => forall|k: int| 0 <= k < gate.len() && gate[k] ==> (#[trigger] v[k]) is None,
        Some(x) => {
            &&& exists|k: int| 0 <= k < gate.len() && gate[k] && #[trigger] v[k] == Some(x)
            &&& forall|k: int|
                0 <= k < gate.len() && gate[k] && (#[trigger] v[k]) is Some ==> x <= v[k].unwrap()
        },
    }
}

proof fn lemma_cell_in_bounds(rows: int, cols: int, i: int, j: int)
    requires
        0 <= i < rows,
        0 <= j < cols,
    ensures
        0 <= i * cols + j < rows * cols,
{
    assert(i * cols + cols <= rows * cols) by (nonlinear_arith)
        requires
            0 <= i < rows,
            0 <= cols,
    ;
    assert(0 <= i * cols) by (nonlinear_arith)
        requires
            0 <= i,
            0 <= cols,
    ;
}

proof fn lemma_cell_distinct(cols: int, i: int, j: int, a: int, b: int)
    requires
        0 <= i,
        0 <= a,
        0 <= j < cols,
        0 <= b < cols,
        i * cols + j == a * cols + b,
    ensures
        i == a,
        j == b,
{
    if i < a {
        assert(i * cols + cols <= a * cols) by (nonlinear_arith)
            requires
                i < a,
                0 <= cols,
        ;
    } else if a < i {
        assert(a * cols + cols <= i * cols) by (nonlinear_arith)
            requires
                a < i,
                0 <= cols,
        ;
    }
}

impl Clone for BitMatrix {
    fn clone(&self) -> (copy: BitMatrix)
        ensures
            copy.rows() == self.rows(),
            copy.cols() == self.cols(),
            forall|i: int, j: int|
                0 <= i < self.rows() && 0 <= j < self.cols() ==> #[trigger] copy.at(i, j)
                    == self.at(i, j),
    {
        proof {
            use_type_invariant(self);
        }
        let n = self.el.len();
        let mut el: Vec<bool> = Vec::new();
        let mut k: usize = 0;
        while k < n
            invariant
                n == self.el@.len(),
                k <= n,
                el@ == self.el@.take(k as int),
            decreases n - k,
        {
            el.push(self.el[k]);
            assert(el@ =~= self.el@.take(k + 1));
            k += 1;
        }
        assert(el@ =~= self.el@);
        BitMatrix { size_i: self.size_i, size_j: self.size_j, el }
    }
}

impl BitMatrix {
    #[verifier::type_invariant]
    spec fn sized(self) -> bool {
        self.el@.len() == self.size_i * self.size_j
    }

    /// The number of rows.
    pub closed spec fn rows(&self) -> nat {
        self.size_i as nat
    }

    /// The number of columns.
    pub closed spec fn cols(&self) -> nat {
        self.size_j as nat
    }

    /// The entry in row `i` and column `j`.
    pub closed spec fn at(&self, i: int, j: int) -> bool {
        self.el@[i * self.size_j + j]
    }

    /// Row `i` as a vector.
    pub open spec fn row(&self, i: int) -> Seq<bool> {
        Seq::new(self.cols(), |j: int| self.at(i, j))
    }

    /// Column `j` as a vector.
    pub open spec fn column(&self, j: int) -> Seq<bool> {
        Seq::new(self.rows(), |i: int| self.at(i, j))
    }

    /// Whether every entry is `false`.
    pub open spec fn is_zero(&self) -> bool {
        forall|i: int, j: int|
            0 <= i < self.rows() && 0 <= j < self.cols() ==> !#[trigger] self.at(i, j)
    }

    fn index(&self, i: usize, j: usize) -> (k: usize)
        requires
            i < self.rows(),
            j < self.cols(),
        ensures
            k == i * self.cols() + j,
            k < self.el@.len(),
    {
        proof {
            use_type_invariant(self);
            lemma_cell_in_bounds(self.size_i as int, self.size_j as int, i as int, j as int);
            assert(self.size_j * i == i * self.size_j) by (nonlinear_arith);
            assert(self.el@.len() == self.el.len());
        }
        self.size_j * i + j
    }

    /// A matrix of `sx` rows and `sy` columns, all entries `false`.
    pub fn new(sx: usize, sy: usize) -> (m: BitMatrix)
        requires
            sx * sy <= usize::MAX,
        ensures
            m.rows() == sx,
            m.cols() == sy,
            m.is_zero(),
    {
        let el = vec![false; sx * sy];
        let m = BitMatrix { size_i: sx, size_j: sy, el };
        assert forall|i: int, j: int| 0 <= i < m.rows() && 0 <= j < m.cols() implies !#[trigger] m.at(
            i,
            j,
        ) by {
            lemma_cell_in_bounds(sx as int, sy as int, i, j);
        }
        m
    }

    /// The number of rows.
    pub fn size_i(&self) -> (n: usize)
        ensures
            n == self.rows(),
    {
        self.size_i
    }

    /// The number of columns.
    pub fn size_j(&self) -> (n: usize)
        ensures
            n == self.cols(),
    {
        self.size_j
    }

    /// The entries in row-major order, each with its row and column.
    #[verifier::rlimit(40)]
    pub fn enumerate_iter(&self) -> (items: Vec<((usize, usize), bool)>)
        ensures
            items@.len() == self.rows() * self.cols(),
            forall|i: int, j: int|
                0 <= i < self.rows() && 0 <= j < self.cols() ==> #[trigger] items@[i * self.cols()
                    + j] == ((i as usize, j as usize), self.at(i, j)),
    {
        proof {
            use_type_invariant(self);
        }
        let mut items: Vec<((usize, usize), bool)> = Vec::new();
        let mut i: usize = 0;
        while i < self.size_i
            invariant
                i <= self.size_i,
                self.el@.len() == self.size_i * self.size_j,
                items@.len() == i * self.size_j,
                forall|a: int, b: int|
                    0 <= a < i && 0 <= b < self.size_j ==> #[trigger] items@[a * self.size_j + b]
                        == ((a as usize, b as usize), self.at(a, b)),
            decreases self.size_i - i,
        {
            let mut j: usize = 0;
            while j < self.size_j
                invariant
                    i < self.size_i,
                    j <= self.size_j,
                    self.el@.len() == self.size_i * self.size_j,
                    items@.len() == i * self.size_j + j,
                    forall|a: int, b: int|
                        0 <= a < i && 0 <= b < self.size_j ==> #[trigger] items@[a * self.size_j
                            + b] == ((a as usize, b as usize), self.at(a, b)),
                    forall|b: int|
                        0 <= b < j ==> #[trigger] items@[i * self.size_j + b] == (
                            (i, b as usize),
                            self.at(i as int, b),
                        ),
                decreases self.size_j - j,
            {
                let ghost before = items@;
                items.push(((i, j), self.get(i, j)));
                proof {
                    assert forall|a: int, b: int| 0 <= a < i && 0 <= b < self.size_j implies #[trigger] items@[a
                        * self.size_j + b] == ((a as usize, b as usize), self.at(a, b)) by {
                        lemma_cell_in_bounds(i as int, self.size_j as int, a, b);
                        assert(items@[a * self.size_j + b] == before[a * self.size_j + b]);
                    }
                }
                j += 1;
            }
            proof {
                assert(i * self.size_j + self.size_j == (i + 1) * self.size_j) by (nonlinear_arith);
                assert forall|a: int, b: int| 0 <= a < i + 1 && 0 <= b < self.size_j implies #[trigger] items@[a
                    * self.size_j + b] == ((a as usize, b as usize), self.at(a, b)) by {
                    if a == i {
                    }
                }
            }
            i += 1;
        }
        items
    }

    /// Visits the entries in row-major order, each with its row and column,
    /// and gives each the value that `f` returns for it.
    #[verifier::rlimit(40)]
    pub fn enumerate_iter_mut<F: Fn((usize, usize), bool) -> bool>(&mut self, f: F)
        requires
            forall|i: usize, j: usize, v: bool|
                i < old(self).rows() && j < old(self).cols() ==> call_requires(f, ((i, j), v)),
        ensures
            final(self).rows() == old(self).rows(),
            final(self).cols() == old(self).cols(),
            forall|i: int, j: int|
                0 <= i < old(self).rows() && 0 <= j < old(self).cols() ==> call_ensures(
                    f,
                    ((i as usize, j as usize), old(self).at(i, j)),
                    #[trigger] final(self).at(i, j),
                ),
    {
        let rows = self.size_i;
        let cols = self.size_j;
        let mut i: usize = 0;
        while i < rows
            invariant
                i <= rows,
                rows == old(self).rows(),
                cols == old(self).cols(),
                self.rows() == rows,
                self.cols() == cols,
                forall|a: usize, b: usize, v: bool|
                    a < rows && b < cols ==> call_requires(f, ((a, b), v)),
                forall|a: int, b: int|
                    0 <= a < i && 0 <= b < cols ==> call_ensures(
                        f,
                        ((a as usize, b as usize), old(self).at(a, b)),
                        #[trigger] self.at(a, b),
                    ),
                forall|a: int, b: int|
                    i <= a < rows && 0 <= b < cols ==> #[trigger] self.at(a, b) == old(self).at(
                        a,
                        b,
                    ),
            decreases rows - i,
        {
            let mut j: usize = 0;
            while j < cols
                invariant
                    i < rows,
                    j <= cols,
                    rows == old(self).rows(),
                    cols == old(self).cols(),
                    self.rows() == rows,
                    self.cols() == cols,
                    forall|a: usize, b: usize, v: bool|
                        a < rows && b < cols ==> call_requires(f, ((a, b), v)),
                    forall|a: int, b: int|
                        0 <= a < i && 0 <= b < cols ==> call_ensures(
                            f,
                            ((a as usize, b as usize), old(self).at(a, b)),
                            #[trigger] self.at(a, b),
                        ),
                    forall|b: int|
                        0 <= b < j ==> call_ensures(
                            f,
                            ((i, b as usize), old(self).at(i as int, b)),
                            #[trigger] self.at(i as int, b),
                        ),
                    forall|b: int|
                        j <= b < cols ==> #[trigger] self.at(i as int, b) == old(self).at(
                            i as int,
                            b,
                        ),
                    forall|a: int, b: int|
                        i < a < rows && 0 <= b < cols ==> #[trigger] self.at(a, b) == old(
                            self,
                        ).at(a, b),
                decreases cols - j,
            {
                let value = f((i, j), self.get(i, j));
                self.set(i, j, value);
                j += 1;
            }
            i += 1;
        }
    }

    /// Sets every entry to `false`.
    pub fn reset(&mut self)
        ensures
            final(self).rows() == old(self).rows(),
            final(self).cols() == old(self).cols(),
            final(self).is_zero(),
    {
        proof {
            use_type_invariant(&*self);
        }
        let n = self.el.len();
        let mut k: usize = 0;
        while k < n
            invariant
                k <= n,
                self.el@.len() == n,
                n == self.size_i * self.size_j,
                self.size_i == old(self).size_i,
                self.size_j == old(self).size_j,
                forall|t: int| 0 <= t < k ==> !self.el@[t],
            decreases n - k,
        {
            self.el[k] = false;
            k += 1;
        }
        assert forall|i: int, j: int| 0 <= i < self.rows() && 0 <= j < self.cols() implies !#[trigger] self.at(
            i,
            j,
        ) by {
            lemma_cell_in_bounds(self.size_i as int, self.size_j as int, i, j);
        }
    }

    /// Sets the entry in row `i` and column `j`.
    pub fn set(&mut self, i: usize, j: usize, value: bool)
        requires
            i < old(self).rows(),
            j < old(self).cols(),
        ensures
            final(self).rows() == old(self).rows(),
            final(self).cols() == old(self).cols(),
            final(self).at(i as int, j as int) == value,
            forall|a: int, b: int|
                0 <= a < old(self).rows() && 0 <= b < old(self).cols() && !(a == i && b == j)
                    ==> #[trigger] final(self).at(a, b) == old(self).at(a, b),
    {
        proof {
            use_type_invariant(&*self);
        }
        let k = self.index(i, j);
        self.el[k] = value;
        proof {
            assert forall|a: int, b: int|
                0 <= a < old(self).rows() && 0 <= b < old(self).cols() && !(a == i && b == j) implies #[trigger] self.at(
                a,
                b,
            ) == old(self).at(a, b) by {
                lemma_cell_in_bounds(self.size_i as int, self.size_j as int, a, b);
                if a * self.size_j + b == k {
                    lemma_cell_distinct(self.size_j as int, a, b, i as int, j as int);
                }
            }
        }
    }

    /// The entry in row `i` and column `j`.
    pub fn get(&self, i: usize, j: usize) -> (value: bool)
        requires
            i < self.rows(),
            j < self.cols(),
        ensures
            value == self.at(i as int, j as int),
    {
        let k = self.index(i, j);
        self.el[k]
    }

    /// Writes the elementwise disjunction of `a` and `b` into `c`.
    pub fn add(a: &BitMatrix, b: &BitMatrix, c: &mut BitMatrix)
        requires
            a.rows() == b.rows(),
            a.cols() == b.cols(),
            a.rows() == old(c).rows(),
            a.cols() == old(c).cols(),
        ensures
            final(c).rows() == old(c).rows(),
            final(c).cols() == old(c).cols(),
            forall|i: int, j: int|
                0 <= i < a.rows() && 0 <= j < a.cols() ==> #[trigger] final(c).at(i, j) == (a.at(
                    i,
                    j,
                ) || b.at(i, j)),
    {
        let rows = a.size_i();
        let cols = a.size_j();
        let mut i: usize = 0;
        while i < rows
            invariant
                i <= rows,
                rows == a.rows(),
                cols == a.cols(),
                b.rows() == rows,
                b.cols() == cols,
                c.rows() == rows,
                c.cols() == cols,
                forall|x: int, y: int|
                    0 <= x < i && 0 <= y < cols ==> #[trigger] c.at(x, y) == (a.at(x, y) || b.at(
                        x,
                        y,
                    )),
            decreases rows - i,
        {
            let mut j: usize = 0;
            while j < cols
                invariant
                    i < rows,
                    j <= cols,
                    rows == a.rows(),
                    cols == a.cols(),
                    b.rows() == rows,
                    b.cols() == cols,
                    c.rows() == rows,
                    c.cols() == cols,
                    forall|x: int, y: int|
                        0 <= x < i && 0 <= y < cols ==> #[trigger] c.at(x, y) == (a.at(x, y)
                            || b.at(x, y)),
                    forall|y: int|
                        0 <= y < j ==> #[trigger] c.at(i as int, y) == (a.at(i as int, y) || b.at(
                            i as int,
                            y,
                        )),
                decreases cols - j,
            {
                let value = a.get(i, j) || b.get(i, j);
                c.set(i, j, value);
                j += 1;
            }
            i += 1;
        }
    }

    /// Writes the boolean product of `a` and `b` into `c`: an entry is set
    /// where a row of `a` and a column of `b` are set at a common index.
    #[verifier::rlimit(40)]
    pub fn mult(a: &BitMatrix, b: &BitMatrix, c: &mut BitMatrix)
        requires
            a.cols() == b.rows(),
            old(c).rows() == a.rows(),
            old(c).cols() == b.cols(),
        ensures
            final(c).rows() == old(c).rows(),
            final(c).cols() == old(c).cols(),
            forall|i: int, j: int|
                0 <= i < a.rows() && 0 <= j < b.cols() ==> #[trigger] final(c).at(i, j) == meet(
                    a.row(i),
                    b.column(j),
                ),
    {
        let rows = a.size_i();
        let cols = b.size_j();
        let n = a.size_j();
        let mut i: usize = 0;
        while i < rows
            invariant
                i <= rows,
                rows == a.rows(),
                cols == b.cols(),
                n == a.cols(),
                n == b.rows(),
                c.rows() == rows,
                c.cols() == cols,
                forall|x: int, y: int|
                    0 <= x < i && 0 <= y < cols ==> #[trigger] c.at(x, y) == meet(
                        a.row(x),
                        b.column(y),
                    ),
            decreases rows - i,
        {
            let mut j: usize = 0;
            while j < cols
                invariant
                    i < rows,
                    j <= cols,
                    rows == a.rows(),
                    cols == b.cols(),
                    n == a.cols(),
                    n == b.rows(),
                    c.rows() == rows,
                    c.cols() == cols,
                    forall|x: int, y: int|
                        0 <= x < i && 0 <= y < cols ==> #[trigger] c.at(x, y) == meet(
                            a.row(x),
                            b.column(y),
                        ),
                    forall|y: int|
                        0 <= y < j ==> #[trigger] c.at(i as int, y) == meet(
                            a.row(i as int),
                            b.column(y),
                        ),
                decreases cols - j,
            {
                let mut value = false;
                let mut k: usize = 0;
                while k < n && !value
                    invariant
                        i < rows,
                        j < cols,
                        k <= n,
                        rows == a.rows(),
                        cols == b.cols(),
                        n == a.cols(),
                        n == b.rows(),
                        value ==> meet(a.row(i as int), b.column(j as int)),
                        !value ==> forall|t: int|
                            0 <= t < k ==> !(#[trigger] a.row(i as int)[t] && b.column(j as int)[t]),
                    decreases n - k + (if value { 0int } else { 1int }),
                {
                    if a.get(i, k) && b.get(k, j) {
                        assert(a.row(i as int)[k as int] && b.column(j as int)[k as int]);
                        value = true;
                    } else {
                        k += 1;
                    }
                }
                c.set(i, j, value);
                j += 1;
            }
            i += 1;
        }
    }
}

impl View for BitVector {
    type V = Seq<bool>;

    closed spec fn view(&self) -> Seq<bool> {
        self.el@
    }
}

impl Clone for BitVector {
    fn clone(&self) -> (copy: BitVector)
        ensures
            copy@ == self@,
    {
        proof {
            use_type_invariant(self);
        }
        let mut el: Vec<bool> = Vec::new();
        let mut i: usize = 0;
        while i < self.size
            invariant
                self.size == self.el@.len(),
                i <= self.size,
                el@ == self.el@.take(i as int),
            decreases self.size - i,
        {
            el.push(self.el[i]);
            assert(el@ =~= self.el@.take(i + 1));
            i += 1;
        }
        assert(el@ =~= self.el@);
        BitVector { size: self.size, el }
    }
}

impl BitVector {
    #[verifier::type_invariant]
    spec fn sized(self) -> bool {
        self.size == self.el@.len()
    }

    /// A vector of `size` elements, all `false`.
    pub fn new(size: usize) -> (v: BitVector)
        ensures
            v@ == all_false(size as nat),
    {
        let el = vec![false; size];
        assert(el@ =~= all_false(size as nat));
        BitVector { size, el }
    }

    /// The number of elements.
    pub fn size(&self) -> (n: usize)
        ensures
            n == self@.len(),
    {
        proof {
            use_type_invariant(self);
        }
        self.size
    }

    /// Sets every element to `false`.
    pub fn reset(&mut self)
        ensures
            final(self)@ == all_false(old(self)@.len()),
    {
        proof {
            use_type_invariant(&*self);
        }
        let n = self.size;
        let mut i: usize = 0;
        while i < n
            invariant
                i <= n,
                n == self.size,
                self.el@.len() == n,
                forall|k: int| 0 <= k < i ==> !self.el@[k],
            decreases n - i,
        {
            self.el[i] = false;
            i += 1;
        }
        assert(self@ =~= all_false(n as nat));
    }

    /// Sets element `i`.
    pub fn set(&mut self, i: usize, value: bool)
        requires
            i < old(self)@.len(),
        ensures
            final(self)@ == old(self)@.update(i as int, value),
    {
        proof {
            use_type_invariant(&*self);
        }
        self.el[i] = value;
    }

    /// Element `i`.
    pub fn get(&self, i: usize) -> (value: bool)
        requires
            i < self@.len(),
        ensures
            value == self@[i as int],
    {
        self.el[i]
    }

    /// The elements in order, each with its index.
    pub fn enumerate_iter(&self) -> (items: Vec<(usize, bool)>)
        ensures
            items@.len() == self@.len(),
            forall|i: int| 0 <= i < self@.len() ==> #[trigger] items@[i] == (i as usize, self@[i]),
    {
        let n = self.size();
        let mut items: Vec<(usize, bool)> = Vec::new();
        let mut i: usize = 0;
        while i < n
            invariant
                i <= n,
                n == self@.len(),
                items@.len() == i,
                forall|k: int| 0 <= k < i ==> #[trigger] items@[k] == (k as usize, self@[k]),
            decreases n - i,
        {
            items.push((i, self.get(i)));
            i += 1;
        }
        items
    }

    /// Visits the elements in order, each with its index, and gives each the
    /// value that `f` returns for it.
    pub fn enumerate_iter_mut<F: Fn(usize, bool) -> bool>(&mut self, f: F)
        requires
            forall|i: usize, v: bool| i < old(self)@.len() ==> call_requires(f, (i, v)),
        ensures
            final(self)@.len() == old(self)@.len(),
            forall|i: int|
                0 <= i < old(self)@.len() ==> call_ensures(
                    f,
                    (i as usize, old(self)@[i]),
                    #[trigger] final(self)@[i],
                ),
    {
        let n = self.size();
        let mut i: usize = 0;
        while i < n
            invariant
                i <= n,
                n == old(self)@.len(),
                self@.len() == n,
                forall|k: usize, v: bool| k < n ==> call_requires(f, (k, v)),
                forall|k: int|
                    0 <= k < i ==> call_ensures(f, (k as usize, old(self)@[k]), #[trigger] self@[k]),
                forall|k: int| i <= k < n ==> #[trigger] self@[k] == old(self)@[k],
            decreases n - i,
        {
            let value = f(i, self.get(i));
            self.set(i, value);
            i += 1;
        }
    }

    /// Writes the elementwise disjunction of `a` and `b` into `c`.
    pub fn add(a: &BitVector, b: &BitVector, c: &mut BitVector)
        requires
            a@.len() == b@.len(),
            a@.len() == old(c)@.len(),
        ensures
            final(c)@ == join(a@, b@),
    {
        let n = a.size();
        let mut i: usize = 0;
        while i < n
            invariant
                i <= n,
                n == a@.len(),
                n == b@.len(),
                n == c@.len(),
                forall|k: int| 0 <= k < i ==> #[trigger] c@[k] == (a@[k] || b@[k]),
            decreases n - i,
        {
            let value = a.get(i) || b.get(i);
            c.set(i, value);
            i += 1;
        }
        assert(c@ =~= join(a@, b@));
    }

    /// Writes the product of the matrix `a` and the vector `b` into `c`:
    /// element `i` is set where row `i` of `a` and `b` are set at a common
    /// index.
    pub fn mult(a: &BitMatrix, b: &BitVector, c: &mut BitVector)
        requires
            a.cols() == b@.len(),
            a.rows() == old(c)@.len(),
        ensures
            final(c)@.len() == old(c)@.len(),
            forall|i: int| 0 <= i < a.rows() ==> #[trigger] final(c)@[i] == meet(a.row(i), b@),
    {
        let rows = a.size_i();
        let n = a.size_j();
        let mut i: usize = 0;
        while i < rows
            invariant
                i <= rows,
                rows == a.rows(),
                n == a.cols(),
                n == b@.len(),
                c@.len() == rows,
                forall|x: int| 0 <= x < i ==> #[trigger] c@[x] == meet(a.row(x), b@),
            decreases rows - i,
        {
            let mut value = false;
            let mut k: usize = 0;
            while k < n && !value
                invariant
                    i < rows,
                    k <= n,
                    rows == a.rows(),
                    n == a.cols(),
                    n == b@.len(),
                    value ==> meet(a.row(i as int), b@),
                    !value ==> forall|t: int|
                        0 <= t < k ==> !(#[trigger] a.row(i as int)[t] && b@[t]),
                decreases n - k + (if value { 0int } else { 1int }),
            {
                if a.get(i, k) && b.get(k) {
                    assert(a.row(i as int)[k as int] && b@[k as int]);
                    value = true;
                } else {
                    k += 1;
                }
            }
            c.set(i, value);
            i += 1;
        }
    }

    /// Whether some index is set in both `a` and `b`.
    pub fn dot(a: &BitVector, b: &BitVector) -> (hit: bool)
        requires
            a@.len() == b@.len(),
        ensures
            hit == meet(a@, b@),
    {
        let n = a.size();
        let mut i: usize = 0;
        while i < n
            invariant
                i <= n,
                n == a@.len(),
                n == b@.len(),
                forall|t: int| 0 <= t < i ==> !(#[trigger] a@[t] && b@[t]),
            decreases n - i,
        {
            if a.get(i) && b.get(i) {
                return true;
            }
            i += 1;
        }
        false
    }
}

impl View for NfaVector {
    type V = Seq<Option<usize>>;

    closed spec fn view(&self) -> Seq<Option<usize>> {
        self.el@
    }
}

impl Clone for NfaVector {
    fn clone(&self) -> (copy: NfaVector)
        ensures
            copy@ == self@,
    {
        proof {
            use_type_invariant(self);
        }
        let mut el: Vec<Option<usize>> = Vec::new();
        let mut i: usize = 0;
        while i < self.size
            invariant
                self.size == self.el@.len(),
                i <= self.size,
                el@ == self.el@.take(i as int),
            decreases self.size - i,
        {
            el.push(self.el[i]);
            assert(el@ =~= self.el@.take(i + 1));
            i += 1;
        }
        assert(el@ =~= self.el@);
        NfaVector { size: self.size, el }
    }
}

impl NfaVector {
    #[verifier::type_invariant]
    spec fn sized(self) -> bool {
        self.size == self.el@.len()
    }

    /// A vector of `size` elements, all unreachable.
    pub fn new(size: usize) -> (v: NfaVector)
        ensures
            v@ == all_none(size as nat),
    {
        let mut el: Vec<Option<usize>> = Vec::new();
        let mut i: usize = 0;
        while i < size
            invariant
                i <= size,
                el@ == all_none(i as nat),
            decreases size - i,
        {
            el.push(None);
            assert(el@ =~= all_none((i + 1) as nat));
            i += 1;
        }
        NfaVector { size, el }
    }

    /// The number of elements.
    pub fn size(&self) -> (n: usize)
        ensures
            n == self@.len(),
    {
        proof {
            use_type_invariant(self);
        }
        self.size
    }

    /// The elements in order, each with its index.
    pub fn enumerate_iter(&self) -> (items: Vec<(usize, Option<usize>)>)
        ensures
            items@.len() == self@.len(),
            forall|i: int| 0 <= i < self@.len() ==> #[trigger] items@[i] == (i as usize, self@[i]),
    {
        let n = self.size();
        let mut items: Vec<(usize, Option<usize>)> = Vec::new();
        let mut i: usize = 0;
        while i < n
            invariant
                i <= n,
                n == self@.len(),
                items@.len() == i,
                forall|k: int| 0 <= k < i ==> #[trigger] items@[k] == (k as usize, self@[k]),
            decreases n - i,
        {
            items.push((i, self.get(i)));
            i += 1;
        }
        items
    }

    /// Visits the elements in order, each with its index, and gives each the
    /// value that `f` returns for it.
    pub fn enumerate_iter_mut<F: Fn(usize, Option<usize>) -> Option<usize>>(&mut self, f: F)
        requires
            forall|i: usize, v: Option<usize>| i < old(self)@.len() ==> call_requires(f, (i, v)),
        ensures
            final(self)@.len() == old(self)@.len(),
            forall|i: int|
                0 <= i < old(self)@.len() ==> call_ensures(
                    f,
                    (i as usize, old(self)@[i]),
                    #[trigger] final(self)@[i],
                ),
    {
        let n = self.size();
        let mut i: usize = 0;
        while i < n
            invariant
                i <= n,
                n == old(self)@.len(),
                self@.len() == n,
                forall|k: usize, v: Option<usize>| k < n ==> call_requires(f, (k, v)),
                forall|k: int|
                    0 <= k < i ==> call_ensures(f, (k as usize, old(self)@[k]), #[trigger] self@[k]),
                forall|k: int| i <= k < n ==> #[trigger] self@[k] == old(self)@[k],
            decreases n - i,
        {
            let value = f(i, self.get(i));
            self.set(i, value);
            i += 1;
        }
    }

    /// Sets every element to unreachable.
    pub fn reset(&mut self)
        ensures
            final(self)@ == all_none(old(self)@.len()),
    {
        proof {
            use_type_invariant(&*self);
        }
        let n = self.size;
        let mut i: usize = 0;
        while i < n
            invariant
                i <= n,
                n == self.size,
                self.el@.len() == n,
                forall|k: int| 0 <= k < i ==> self.el@[k] is None,
            decreases n - i,
        {
            self.el[i] = None;
            i += 1;
        }
        assert(self@ =~= all_none(n as nat));
    }

    /// Sets element `i`.
    pub fn set(&mut self, i: usize, value: Option<usize>)
        requires
            i < old(self)@.len(),
        ensures
            final(self)@ == old(self)@.update(i as int, value),
    {
        proof {
            use_type_invariant(&*self);
        }
        self.el[i] = value;
    }

    /// Element `i`.
    pub fn get(&self, i: usize) -> (value: Option<usize>)
        requires
            i < self@.len(),
        ensures
            value == self@[i as int],
    {
        self.el[i]
    }

    /// Writes the gated minimum of `b` under each row of `a` into `c`:
    /// element `i` is the least offset that `b` holds at an index where
    /// row `i` of `a` is set.
    #[verifier::rlimit(40)]
    pub fn mult(a: &BitMatrix, b: &NfaVector, c: &mut NfaVector)
        requires
            a.cols() == b@.len(),
            a.rows() == old(c)@.len(),
        ensures
            final(c)@.len() == old(c)@.len(),
            forall|i: int| 0 <= i < a.rows() ==> least_gated(#[trigger] final(c)@[i], a.row(i), b@),
    {
        let rows = a.size_i();
        let n = a.size_j();
        let mut i: usize = 0;
        while i < rows
            invariant
                i <= rows,
                rows == a.rows(),
                n == a.cols(),
                n == b@.len(),
                c@.len() == rows,
                forall|x: int| 0 <= x < i ==> least_gated(#[trigger] c@[x], a.row(x), b@),
            decreases rows - i,
        {
            let mut value: Option<usize> = None;
            let mut k: usize = 0;
            while k < n
                invariant
                    i < rows,
                    k <= n,
                    rows == a.rows(),
                    n == a.cols(),
                    n == b@.len(),
                    least_gated(value, a.row(i as int).take(k as int), b@),
                decreases n - k,
            {
                let ghost gate = a.row(i as int).take(k as int);
                let ghost next = a.row(i as int).take(k + 1);
                let ghost before = value;
                if a.get(i, k) {
                    value = min_some(value, b.get(k));
                }
                proof {
                    assert(forall|t: int| 0 <= t < k ==> next[t] == gate[t]);
                    assert(next[k as int] == a.at(i as int, k as int));
                    if let Some(x) = value {
                        if before == Some(x) {
                            let t = choose|t: int| 0 <= t < gate.len() && gate[t] && b@[t] == Some(x);
                            assert(next[t] && b@[t] == Some(x));
                        } else {
                            assert(next[k as int] && b@[k as int] == Some(x));
                        }
                    }
                }
                k += 1;
            }
            proof {
                assert(a.row(i as int).take(n as int) =~= a.row(i as int));
            }
            c.set(i, value);
            i += 1;
        }
    }

    /// The least offset that `a` holds at an index where `b` is set.
    pub fn dot(a: &NfaVector, b: &BitVector) -> (least: Option<usize>)
        requires
            a@.len() == b@.len(),
        ensures
            least_gated(least, b@, a@),
    {
        let n = a.size();
        let mut value: Option<usize> = None;
        let mut k: usize = 0;
        while k < n
            invariant
                k <= n,
                n == a@.len(),
                n == b@.len(),
                least_gated(value, b@.take(k as int), a@),
            decreases n - k,
        {
            let ghost gate = b@.take(k as int);
            let ghost next = b@.take(k + 1);
            let ghost before = value;
            if b.get(k) {
                value = min_some(value, a.get(k));
            }
            proof {
                assert(forall|t: int| 0 <= t < k ==> next[t] == gate[t]);
                assert(next[k as int] == b@[k as int]);
                if let Some(x) = value {
                    if before == Some(x) {
                        let t = choose|t: int| 0 <= t < gate.len() && gate[t] && a@[t] == Some(x);
                        assert(next[t] && a@[t] == Some(x));
                    } else {
                        assert(next[k as int] && a@[k as int] == Some(x));
                    }
                }
            }
            k += 1;
        }
        proof {
            assert(b@.take(n as int) =~= b@);
        }
        value
    }
}

/// The smaller of two offsets, where unreachable is larger than any offset.
fn min_some(a: Option<usize>, b: Option<usize>) -> (r: Option<usize>)
    ensures
        r == min_option(a, b),
{
    match (a, b) {
        (None, None) => None,
        (Some(x), None) => Some(x),
        (None, Some(y)) => Some(y),
        (Some(x), Some(y)) => Some(if x <= y { x } else { y }),
    }
}

} // verus!
