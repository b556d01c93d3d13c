use crate::number::NumNonRef;
use vstd::prelude::*;

verus! {

/// Why a matrix operation could not be carried out.
#[derive(Debug)]
pub enum MatrixError {
    NotSquare,
    NotRegular,
    IOError(String),
    InvalidFileFormat,
    SizeMismatch,
    UnexpectedAnswer,
    NotTridiagonal,
    UnsopportedOperation,
}

/// Position of entry `(i, j)` in a row-major sequence with rows of `w` entries.
pub open spec fn idx(i: int, j: int, w: int) -> int {
    i * w + j
}

/// Entries that come earlier in row-major order sit at lower positions, and every entry of an
/// `h`-by-`w` matrix sits below `w * h`.
pub proof fn lemma_idx(ii: int, jj: int, i: int, j: int, w: int, h: int)
    requires
        0 <= ii,
        0 <= jj < w,
        0 <= j,
        ii < i || (ii == i && jj < j),
    ensures
        0 <= idx(ii, jj, w) < idx(i, j, w),
        ii < h ==> idx(ii, jj, w) < w * h,
{
    assert(0 <= ii * w + jj < i * w + j) by (nonlinear_arith)
        requires
            0 <= ii,
            0 <= jj < w,
            0 <= j,
            ii < i || (ii == i && jj < j),
    ;
    if ii < h {
        assert(ii * w + jj < w * h) by (nonlinear_arith)
            requires
                0 <= ii < h,
                0 <= jj < w,
        ;
    }
}

/// Two entries of one shape sit at the same position only if they are the same entry.
pub proof fn lemma_idx_inj(i: int, j: int, r: int, c: int, w: int)
    requires
        0 <= i,
        0 <= r,
        0 <= j < w,
        0 <= c < w,
        idx(i, j, w) == idx(r, c, w),
    ensures
        i == r,
        j == c,
{
    if i < r {
        lemma_idx(i, j, r, c, w, 0);
    } else if r < i {
        lemma_idx(r, c, i, j, w, 0);
    }
}

/// The first entry of the next row follows the last entry of this one.
pub proof fn lemma_idx_next_row(i: int, w: int)
    ensures
        idx(i + 1, 0, w) == idx(i, w, w),
{
    assert((i + 1) * w == i * w + w) by (nonlinear_arith);
}

/// A dense matrix, stored row by row.
#[derive(Debug)]
pub struct Matrix<T> {
    elems: Vec<T>,
    width: usize,
    height: usize,
}

impl<T: NumNonRef> Matrix<T> {
    /// As many entries as the shape asks for, each of them valid.
    pub closed spec fn wf(&self) -> bool {
        &&& self.elems@.len() == self.width * self.height
        &&& forall|k: int| 0 <= k < self.elems@.len() ==> (#[trigger] self.elems@[k]).valid()
    }

    pub closed spec fn w(&self) -> nat {
        self.width as nat
    }

    pub closed spec fn h(&self) -> nat {
        self.height as nat
    }

    /// Entry `k` in row-major order.
    pub closed spec fn entry(&self, k: int) -> T::V {
        self.elems@[k]@
    }

    /// The element stored at row `i`, column `j`.
    pub closed spec fn elem_at(&self, i: int, j: int) -> T {
        self.elems@[idx(i, j, self.w() as int)]
    }

    /// Every stored element is valid, and its value is the entry.
    pub proof fn lemma_elem(&self, i: int, j: int)
        requires
            self.wf(),
            0 <= i < self.h(),
            0 <= j < self.w(),
        ensures
            self.elem_at(i, j).valid(),
            self.elem_at(i, j)@ == self.at(i, j),
    {
        lemma_idx(i, j, i, self.w() as int, self.w() as int, self.h() as int);
    }

    /// Entry at row `i`, column `j`.
    pub open spec fn at(&self, i: int, j: int) -> T::V {
        self.entry(idx(i, j, self.w() as int))
    }

    /// A `width`-by-`height` matrix of zeros.
    pub fn new(width: usize, height: usize) -> (r: Self)
        requires
            width * height <= usize::MAX,
        ensures
            r.wf(),
            r.w() == width,
            r.h() == height,
            forall|k: int| 0 <= k < width * height ==> #[trigger] r.entry(k) == T::zero_v(),
    {
        let n = width * height;
        let mut elems: Vec<T> = Vec::new();
        let mut k: usize = 0;
        while k < n
            invariant
                k <= n,
                elems@.len() == k,
                forall|q: int| 0 <= q < k ==> (#[trigger] elems@[q]).valid() && elems@[q]@ == T::zero_v(),
            decreases n - k,
        {
            elems.push(T::zero());
            k = k + 1;
        }
        Matrix { elems, width, height }
    }

    /// A matrix of width `width` whose rows are read from `elems` in order; the length must be
    /// a multiple of the width.
    pub fn from_vec(elems: Vec<T>, width: usize) -> (r: Result<Self, MatrixError>)
        requires
            width > 0,
            forall|k: int| 0 <= k < elems@.len() ==> (#[trigger] elems@[k]).valid(),
        ensures
            r is Ok <==> elems@.len() % (width as nat) == 0,
            r is Err ==> r->Err_0 is SizeMismatch,
            r matches Ok(m) ==> m.wf() && m.w() == width && m.h() == elems@.len() / (width as nat)
                && forall|k: int| 0 <= k < elems@.len() ==> #[trigger] m.entry(k) == elems@[k]@,
    {
        if elems.len() % width != 0 {
            Err(MatrixError::SizeMismatch)
        } else {
            let height = elems.len() / width;
            proof {
                vstd::arithmetic::div_mod::lemma_fundamental_div_mod(elems@.len() as int, width as int);
                assert(width * height == height * width) by (nonlinear_arith);
            }
            Ok(Matrix { height, elems, width })
        }
    }

    /// The entries in row-major order.
    pub fn elems_raw(&self) -> (r: &[T])
        requires
            self.wf(),
        ensures
            r@.len() == self.w() * self.h(),
            forall|k: int| 0 <= k < r@.len() ==> #[trigger] r@[k]@ == self.entry(k) && r@[k].valid(),
    {
        self.elems.as_slice()
    }

    /// The `width`-by-`width` identity matrix.
    pub fn identity(width: usize) -> (r: Self)
        requires
            width * width <= usize::MAX,
        ensures
            r.wf(),
            r.w() == width,
            r.h() == width,
            forall|i: int, j: int|
                0 <= i < width && 0 <= j < width ==> #[trigger] r.at(i, j) == (if i == j {
                    T::one_v()
                } else {
                    T::zero_v()
                }),
    {
        let n = width;
        let mut v: Vec<T> = Vec::new();
        let mut i: usize = 0;
        while i < n
            invariant
                i <= n,
                n * n <= usize::MAX,
                v@.len() == idx(i as int, 0, n as int),
                forall|k: int| 0 <= k < v@.len() ==> (#[trigger] v@[k]).valid(),
                forall|ii: int, jj: int|
                    0 <= ii < i && 0 <= jj < n ==> #[trigger] v@[idx(ii, jj, n as int)]@ == (if ii
                        == jj {
                        T::one_v()
                    } else {
                        T::zero_v()
                    }),
            decreases n - i,
        {
            let mut j: usize = 0;
            while j < n
                invariant
                    i < n,
                    j <= n,
                    n * n <= usize::MAX,
                    v@.len() == idx(i as int, j as int, n as int),
                    forall|k: int| 0 <= k < v@.len() ==> (#[trigger] v@[k]).valid(),
                    forall|ii: int, jj: int|
                        0 <= ii < i && 0 <= jj < n ==> #[trigger] v@[idx(ii, jj, n as int)]@ == (if ii
                            == jj {
                            T::one_v()
                        } else {
                            T::zero_v()
                        }),
                    forall|jj: int|
                        0 <= jj < j ==> #[trigger] v@[idx(i as int, jj, n as int)]@ == (if i == jj {
                            T::one_v()
                        } else {
                            T::zero_v()
                        }),
                decreases n - j,
            {
                let ghost old_v = v@;
                proof {
                    lemma_idx(i as int, j as int, i as int + 1, 0, n as int, n as int);
                }
                if i == j {
                    v.push(T::one());
                } else {
                    v.push(T::zero());
                }
                proof {
                    assert forall|ii: int, jj: int| 0 <= ii < i && 0 <= jj < n implies #[trigger] v@[idx(
                        ii,
                        jj,
                        n as int,
                    )]@ == old_v[idx(ii, jj, n as int)]@ by {
                        lemma_idx(ii, jj, i as int, j as int, n as int, n as int);
                    }
                    assert forall|jj: int| 0 <= jj < j + 1 implies #[trigger] v@[idx(
                        i as int,
                        jj,
                        n as int,
                    )]@ == (if i == jj {
                        T::one_v()
                    } else {
                        T::zero_v()
                    }) by {
                        if jj < j {
                            lemma_idx(i as int, jj, i as int, j as int, n as int, n as int);
                        }
                    }
                }
                j = j + 1;
            }
            proof {
                lemma_idx_next_row(i as int, n as int);
            }
            i = i + 1;
        }
        proof {
            assert(idx(n as int, 0, n as int) == n * n);
        }
        Matrix { elems: v, width: n, height: n }
    }

    /// The sum of the first `n` products along row `i` of `self` and column `j` of `rhs`,
    /// added up in order from zero.
    pub open spec fn dot(&self, rhs: &Matrix<T>, i: int, j: int, n: nat) -> T::V
        decreases n,
    {
        if n == 0 {
            T::zero_v()
        } else {
            T::add_v(
                self.dot(rhs, i, j, (n - 1) as nat),
                T::mul_v(self.at(i, n - 1), rhs.at(n - 1, j)),
            )
        }
    }

    /// The transpose.
    pub fn transpose(&self) -> (r: Self)
        requires
            self.wf(),
        ensures
            r.wf(),
            r.w() == self.h(),
            r.h() == self.w(),
            forall|i: int, j: int|
                0 <= i < self.w() && 0 <= j < self.h() ==> #[trigger] r.at(i, j) == self.at(j, i),
    {
        let w = self.width;
        let h = self.height;
        let mut v: Vec<T> = Vec::new();
        let mut i: usize = 0;
        while i < w
            invariant
                self.wf(),
                w == self.w(),
                h == self.h(),
                i <= w,
                v@.len() == idx(i as int, 0, h as int),
                forall|k: int| 0 <= k < v@.len() ==> (#[trigger] v@[k]).valid(),
                forall|ii: int, jj: int|
                    0 <= ii < i && 0 <= jj < h ==> #[trigger] v@[idx(ii, jj, h as int)]@ == self.at(jj, ii),
            decreases w - i,
        {
            let mut j: usize = 0;
            while j < h
                invariant
                    self.wf(),
                w == self.w(),
                h == self.h(),
                    i < w,
                    j <= h,
                    v@.len() == idx(i as int, j as int, h as int),
                    forall|k: int| 0 <= k < v@.len() ==> (#[trigger] v@[k]).valid(),
                    forall|ii: int, jj: int|
                        0 <= ii < i && 0 <= jj < h ==> #[trigger] v@[idx(ii, jj, h as int)]@ == self.at(jj, ii),
                    forall|jj: int|
                        0 <= jj < j ==> #[trigger] v@[idx(i as int, jj, h as int)]@ == self.at(jj, (i as int)),
                decreases h - j,
            {
                let ghost old_v = v@;
                proof {
                    lemma_idx(j as int, i as int, j as int, w as int, w as int, h as int);
                }
                let x = self.get(j, i).copy_num();
                v.push(x);
                proof {
                    assert forall|ii: int, jj: int| 0 <= ii < i && 0 <= jj < h implies #[trigger] v@[idx(
                        ii,
                        jj,
                        h as int,
                    )]@ == old_v[idx(ii, jj, h as int)]@ by {
                        lemma_idx(ii, jj, i as int, j as int, h as int, w as int);
                    }
                    assert forall|jj: int| 0 <= jj < j + 1 implies #[trigger] v@[idx(
                        i as int,
                        jj,
                        h as int,
                    )]@ == self.at(jj, (i as int)) by {
                        if jj < j {
                            lemma_idx(i as int, jj, i as int, j as int, h as int, w as int);
                        }
                    }
                }
                j = j + 1;
            }
            proof {
                lemma_idx_next_row(i as int, h as int);
            }
            i = i + 1;
        }
        proof {
            assert(idx(w as int, 0, h as int) == w * h);
            assert(w * h == h * w) by (nonlinear_arith);
        }
        Matrix { elems: v, width: h, height: w }
    }

    /// The conjugate transpose.
    pub fn hermetian_transpose(&self) -> (r: Self)
        requires
            self.wf(),
        ensures
            r.wf(),
            r.w() == self.h(),
            r.h() == self.w(),
            forall|i: int, j: int|
                0 <= i < self.w() && 0 <= j < self.h() ==> #[trigger] r.at(i, j) == T::conj_v(
                    self.at(j, i),
                ),
    {
        let w = self.width;
        let h = self.height;
        let mut v: Vec<T> = Vec::new();
        let mut i: usize = 0;
        while i < w
            invariant
                self.wf(),
                w == self.w(),
                h == self.h(),
                i <= w,
                v@.len() == idx(i as int, 0, h as int),
                forall|k: int| 0 <= k < v@.len() ==> (#[trigger] v@[k]).valid(),
                forall|ii: int, jj: int|
                    0 <= ii < i && 0 <= jj < h ==> #[trigger] v@[idx(ii, jj, h as int)]@ == T::conj_v(self.at(jj, ii)),
            decreases w - i,
        {
            let mut j: usize = 0;
            while j < h
                invariant
                    self.wf(),
                w == self.w(),
                h == self.h(),
                    i < w,
                    j <= h,
                    v@.len() == idx(i as int, j as int, h as int),
                    forall|k: int| 0 <= k < v@.len() ==> (#[trigger] v@[k]).valid(),
                    forall|ii: int, jj: int|
                        0 <= ii < i && 0 <= jj < h ==> #[trigger] v@[idx(ii, jj, h as int)]@ == T::conj_v(self.at(jj, ii)),
                    forall|jj: int|
                        0 <= jj < j ==> #[trigger] v@[idx(i as int, jj, h as int)]@ == T::conj_v(self.at(jj, (i as int))),
                decreases h - j,
            {
                let ghost old_v = v@;
                let x = self.get(j, i).conjugate();
                v.push(x);
                proof {
                    assert forall|ii: int, jj: int| 0 <= ii < i && 0 <= jj < h implies #[trigger] v@[idx(
                        ii,
                        jj,
                        h as int,
                    )]@ == old_v[idx(ii, jj, h as int)]@ by {
                        lemma_idx(ii, jj, i as int, j as int, h as int, w as int);
                    }
                    assert forall|jj: int| 0 <= jj < j + 1 implies #[trigger] v@[idx(
                        i as int,
                        jj,
                        h as int,
                    )]@ == T::conj_v(self.at(jj, (i as int))) by {
                        if jj < j {
                            lemma_idx(i as int, jj, i as int, j as int, h as int, w as int);
                        }
                    }
                }
                j = j + 1;
            }
            proof {
                lemma_idx_next_row(i as int, h as int);
            }
            i = i + 1;
        }
        proof {
            assert(idx(w as int, 0, h as int) == w * h);
            assert(w * h == h * w) by (nonlinear_arith);
        }
        Matrix { elems: v, width: h, height: w }
    }

    /// The matrix product; the inner dimensions must agree.
    pub fn mul(&self, rhs: &Matrix<T>) -> (r: Result<Self, MatrixError>)
        requires
            self.wf(),
            rhs.wf(),
        ensures
            self.w() != rhs.h() ==> r is Err && r->Err_0 is SizeMismatch,
            self.w() == rhs.h() && self.h() * rhs.w() <= usize::MAX ==> r is Ok,
            r is Err ==> r->Err_0 is SizeMismatch,
            r matches Ok(m) ==> m.wf() && m.w() == rhs.w() && m.h() == self.h() && forall|i: int, j: int|
                0 <= i < self.h() && 0 <= j < rhs.w() ==> #[trigger] m.at(i, j) == self.dot(
                    rhs,
                    i,
                    j,
                    self.w(),
                ),
    {
        if self.width != rhs.height {
            return Err(MatrixError::SizeMismatch);
        }
        let n = self.width;
        let w = rhs.width;
        let h = self.height;
        if w != 0 && h > usize::MAX / w {
            proof {
                vstd::arithmetic::div_mod::lemma_fundamental_div_mod(usize::MAX as int, w as int);
                let q = usize::MAX as int / w as int;
                let m = usize::MAX as int % w as int;
                assert(h * w > usize::MAX) by (nonlinear_arith)
                    requires
                        h >= q + 1,
                        w > 0,
                        usize::MAX == w * q + m,
                        m < w,
                ;
            }
            return Err(MatrixError::SizeMismatch);
        }
        proof {
            if w != 0 {
                vstd::arithmetic::div_mod::lemma_fundamental_div_mod(usize::MAX as int, w as int);
                assert(h * w <= usize::MAX) by (nonlinear_arith)
                    requires
                        h <= usize::MAX as int / w as int,
                        w > 0,
                        (usize::MAX as int / w as int) * w <= usize::MAX,
                ;
            }
        }
        let mut v: Vec<T> = Vec::new();
        let mut i: usize = 0;
        while i < h
            invariant
                self.wf(),
                rhs.wf(),
                n == self.w(),
                n == rhs.h(),
                w == rhs.w(),
                h == self.h(),
                i <= h,
                v@.len() == idx(i as int, 0, w as int),
                forall|k: int| 0 <= k < v@.len() ==> (#[trigger] v@[k]).valid(),
                forall|ii: int, jj: int|
                    0 <= ii < i && 0 <= jj < w ==> #[trigger] v@[idx(ii, jj, w as int)]@ == self.dot(rhs, ii, jj, self.w()),
            decreases h - i,
        {
            let mut j: usize = 0;
            while j < w
                invariant
                    self.wf(),
                rhs.wf(),
                n == self.w(),
                n == rhs.h(),
                w == rhs.w(),
                h == self.h(),
                    i < h,
                    j <= w,
                    v@.len() == idx(i as int, j as int, w as int),
                    forall|k: int| 0 <= k < v@.len() ==> (#[trigger] v@[k]).valid(),
                    forall|ii: int, jj: int|
                        0 <= ii < i && 0 <= jj < w ==> #[trigger] v@[idx(ii, jj, w as int)]@ == self.dot(rhs, ii, jj, self.w()),
                    forall|jj: int|
                        0 <= jj < j ==> #[trigger] v@[idx(i as int, jj, w as int)]@ == self.dot(rhs, (i as int), jj, self.w()),
                decreases w - j,
            {
                let ghost old_v = v@;
                let mut acc = T::zero();
                let mut k: usize = 0;
                while k < n
                    invariant
                        self.wf(),
                        rhs.wf(),
                        n == self.w(),
                        n == rhs.h(),
                        w == rhs.w(),
                        h == self.h(),
                        i < h,
                        j < w,
                        k <= n,
                        acc.valid(),
                        acc@ == self.dot(rhs, i as int, j as int, k as nat),
                    decreases n - k,
                {
                    let p = self.get(i, k).times(rhs.get(k, j));
                    acc = acc.plus(&p);
                    k = k + 1;
                }
                let x = acc;
                v.push(x);
                proof {
                    assert forall|ii: int, jj: int| 0 <= ii < i && 0 <= jj < w implies #[trigger] v@[idx(
                        ii,
                        jj,
                        w as int,
                    )]@ == old_v[idx(ii, jj, w as int)]@ by {
                        lemma_idx(ii, jj, i as int, j as int, w as int, h as int);
                    }
                    assert forall|jj: int| 0 <= jj < j + 1 implies #[trigger] v@[idx(
                        i as int,
                        jj,
                        w as int,
                    )]@ == self.dot(rhs, (i as int), jj, self.w()) by {
                        if jj < j {
                            lemma_idx(i as int, jj, i as int, j as int, w as int, h as int);
                        }
                    }
                }
                j = j + 1;
            }
            proof {
                lemma_idx_next_row(i as int, w as int);
            }
            i = i + 1;
        }
        proof {
            assert(idx(h as int, 0, w as int) == h * w);
            assert(h * w == w * h) by (nonlinear_arith);
        }
        Ok(Matrix { elems: v, width: w, height: h })
    }

    /// Entrywise sum; the shapes must agree.
    pub fn add(&self, rhs: &Matrix<T>) -> (r: Result<Self, MatrixError>)
        requires
            self.wf(),
            rhs.wf(),
        ensures
            r is Err <==> (self.w() != rhs.w() || self.h() != rhs.h()),
            r is Err ==> r->Err_0 is SizeMismatch,
            r matches Ok(m) ==> m.wf() && m.w() == self.w() && m.h() == self.h() && forall|k: int|
                0 <= k < self.w() * self.h() ==> #[trigger] m.entry(k) == T::add_v(
                    self.entry(k),
                    rhs.entry(k),
                ),
    {
        if self.width != rhs.width || self.height != rhs.height {
            return Err(MatrixError::SizeMismatch);
        }
        let n = self.elems.len();
        let mut v: Vec<T> = Vec::new();
        let mut k: usize = 0;
        while k < n
            invariant
                self.wf(),
                rhs.wf(),
                n == self.w() * self.h(),
                rhs.w() == self.w(),
                rhs.h() == self.h(),
                k <= n,
                v@.len() == k,
                forall|q: int| 0 <= q < k ==> (#[trigger] v@[q]).valid() && v@[q]@ == T::add_v(self.entry(q), rhs.entry(q)),
            decreases n - k,
        {
            let x = self.elems[k].plus(&rhs.elems[k]);
            v.push(x);
            k = k + 1;
        }
        Ok(Matrix { elems: v, width: self.width, height: self.height })
    }

    /// Entrywise difference; the shapes must agree.
    pub fn sub(&self, rhs: &Matrix<T>) -> (r: Result<Self, MatrixError>)
        requires
            self.wf(),
            rhs.wf(),
        ensures
            r is Err <==> (self.w() != rhs.w() || self.h() != rhs.h()),
            r is Err ==> r->Err_0 is SizeMismatch,
            r matches Ok(m) ==> m.wf() && m.w() == self.w() && m.h() == self.h() && forall|k: int|
                0 <= k < self.w() * self.h() ==> #[trigger] m.entry(k) == T::sub_v(
                    self.entry(k),
                    rhs.entry(k),
                ),
    {
        if self.width != rhs.width || self.height != rhs.height {
            return Err(MatrixError::SizeMismatch);
        }
        let n = self.elems.len();
        let mut v: Vec<T> = Vec::new();
        let mut k: usize = 0;
        while k < n
            invariant
                self.wf(),
                rhs.wf(),
                n == self.w() * self.h(),
                rhs.w() == self.w(),
                rhs.h() == self.h(),
                k <= n,
                v@.len() == k,
                forall|q: int| 0 <= q < k ==> (#[trigger] v@[q]).valid() && v@[q]@ == T::sub_v(self.entry(q), rhs.entry(q)),
            decreases n - k,
        {
            let x = self.elems[k].minus(&rhs.elems[k]);
            v.push(x);
            k = k + 1;
        }
        Ok(Matrix { elems: v, width: self.width, height: self.height })
    }

    /// Every entry multiplied by `x` (as `x * entry`).
    pub fn scale(&self, x: &T) -> (r: Self)
        requires
            self.wf(),
            x.valid(),
        ensures
            r.wf(),
            r.w() == self.w(),
            r.h() == self.h(),
            forall|k: int|
                0 <= k < self.w() * self.h() ==> #[trigger] r.entry(k) == T::mul_v(x@, self.entry(k)),
    {
        let n = self.elems.len();
        let mut v: Vec<T> = Vec::new();
        let mut k: usize = 0;
        while k < n
            invariant
                self.wf(),
                x.valid(),
                n == self.w() * self.h(),
                k <= n,
                v@.len() == k,
                forall|q: int| 0 <= q < k ==> (#[trigger] v@[q]).valid() && v@[q]@ == T::mul_v(x@, self.entry(q)),
            decreases n - k,
        {
            let y = x.times(&self.elems[k]);
            v.push(y);
            k = k + 1;
        }
        Matrix { elems: v, width: self.width, height: self.height }
    }

    /// Every entry divided by the non-zero `x`.
    pub fn div_scalar(&self, x: &T) -> (r: Self)
        requires
            self.wf(),
            x.valid(),
            x@ != T::zero_v(),
        ensures
            r.wf(),
            r.w() == self.w(),
            r.h() == self.h(),
            forall|k: int|
                0 <= k < self.w() * self.h() ==> #[trigger] r.entry(k) == T::div_v(self.entry(k), x@),
    {
        let n = self.elems.len();
        let mut v: Vec<T> = Vec::new();
        let mut k: usize = 0;
        while k < n
            invariant
                self.wf(),
                x.valid(),
                x@ != T::zero_v(),
                n == self.w() * self.h(),
                k <= n,
                v@.len() == k,
                forall|q: int| 0 <= q < k ==> (#[trigger] v@[q]).valid() && v@[q]@ == T::div_v(self.entry(q), x@),
            decreases n - k,
        {
            let y = self.elems[k].over(x);
            v.push(y);
            k = k + 1;
        }
        Matrix { elems: v, width: self.width, height: self.height }
    }

    /// A `width`-by-`width` matrix with `x` in every entry, the diagonal and all others alike.
    pub fn scalar(x: T, width: usize) -> (r: Self)
        requires
            x.valid(),
            width * width <= usize::MAX,
        ensures
            r.wf(),
            r.w() == width,
            r.h() == width,
            forall|k: int| 0 <= k < width * width ==> #[trigger] r.entry(k) == x@,
    {
        let n = width * width;
        let mut v: Vec<T> = Vec::new();
        let mut k: usize = 0;
        while k < n
            invariant
                x.valid(),
                n == width * width,
                k <= n,
                v@.len() == k,
                forall|q: int| 0 <= q < k ==> (#[trigger] v@[q]).valid() && v@[q]@ == x@,
            decreases n - k,
        {
            let y = x.copy_num();
            v.push(y);
            k = k + 1;
        }
        Matrix { elems: v, width, height: width }
    }

    /// Row `row` as a 1-by-width matrix.
    pub fn row(&self, row: usize) -> (r: Self)
        requires
            self.wf(),
            row < self.h(),
        ensures
            r.wf(),
            r.w() == self.w(),
            r.h() == 1,
            forall|j: int| 0 <= j < self.w() ==> #[trigger] r.at(0, j) == self.at(row as int, j),
    {
        let n = self.width;
        let mut v: Vec<T> = Vec::new();
        let mut k: usize = 0;
        while k < n
            invariant
                self.wf(),
                row < self.h(),
                n == self.w(),
                k <= n,
                v@.len() == k,
                forall|q: int| 0 <= q < k ==> (#[trigger] v@[q]).valid() && v@[q]@ == self.at(row as int, q),
            decreases n - k,
        {
            let y = self.get(row, k).copy_num();
            v.push(y);
            k = k + 1;
        }
        Matrix { elems: v, width: self.width, height: 1 }
    }

    /// Column `column` as a height-by-1 matrix.
    pub fn column(&self, column: usize) -> (r: Self)
        requires
            self.wf(),
            column < self.w(),
        ensures
            r.wf(),
            r.w() == 1,
            r.h() == self.h(),
            forall|i: int| 0 <= i < self.h() ==> #[trigger] r.at(i, 0) == self.at(i, column as int),
    {
        let n = self.height;
        let mut v: Vec<T> = Vec::new();
        let mut k: usize = 0;
        while k < n
            invariant
                self.wf(),
                column < self.w(),
                n == self.h(),
                k <= n,
                v@.len() == k,
                forall|q: int| 0 <= q < k ==> (#[trigger] v@[q]).valid() && v@[q]@ == self.at(q, column as int),
            decreases n - k,
        {
            let y = self.get(k, column).copy_num();
            v.push(y);
            k = k + 1;
        }
        Matrix { elems: v, width: 1, height: self.height }
    }

    /// Entry at row `row`, column `column`.
    pub fn get(&self, row: usize, column: usize) -> (r: &T)
        requires
            self.wf(),
            row < self.h(),
            column < self.w(),
        ensures
            r.valid(),
            r@ == self.at(row as int, column as int),
    {
        proof {
            lemma_idx(row as int, column as int, row as int, self.w() as int, self.w() as int, self.h() as int);
        }
        let _n = self.elems.len();
        &self.elems[row * self.width + column]
    }

    /// Replaces the entry at row `row`, column `column`.
    pub fn set(&mut self, row: usize, column: usize, val: T)
        requires
            old(self).wf(),
            row < old(self).h(),
            column < old(self).w(),
            val.valid(),
        ensures
            final(self).wf(),
            final(self).w() == old(self).w(),
            final(self).h() == old(self).h(),
            forall|k: int|
                0 <= k < old(self).w() * old(self).h() ==> #[trigger] final(self).entry(k) == (if k
                    == idx(row as int, column as int, old(self).w() as int) {
                    val@
                } else {
                    old(self).entry(k)
                }),
            forall|i: int, j: int|
                0 <= i < old(self).h() && 0 <= j < old(self).w() ==> #[trigger] final(self).at(i, j) == (
                if i == row && j == column {
                    val@
                } else {
                    old(self).at(i, j)
                }),
    {
        proof {
            lemma_idx(row as int, column as int, row as int, self.w() as int, self.w() as int, self.h() as int);
        }
        let ghost v = val@;
        let ghost before = *self;
        let _n = self.elems.len();
        let k = row * self.width + column;
        self.elems.set(k, val);
        assert(self.elems@[k as int]@ == v);
        proof {
            assert forall|i: int, j: int|
                0 <= i < before.h() && 0 <= j < before.w() implies #[trigger] self.at(i, j) == (if i
                == row && j == column {
                v
            } else {
                before.at(i, j)
            }) by {
                lemma_idx(i, j, i, self.w() as int, self.w() as int, self.h() as int);
                if idx(i, j, self.w() as int) == k {
                    lemma_idx_inj(i, j, row as int, column as int, self.w() as int);
                }
            }
        }
    }

    /// The number of entries.
    pub(crate) fn size(&self) -> (r: usize)
        requires
            self.wf(),
        ensures
            r == self.w() * self.h(),
    {
        self.elems.len()
    }

    /// A copy of the matrix.
    pub fn duplicate(&self) -> (r: Self)
        requires
            self.wf(),
        ensures
            r.wf(),
            r.w() == self.w(),
            r.h() == self.h(),
            forall|k: int| 0 <= k < self.w() * self.h() ==> #[trigger] r.entry(k) == self.entry(k),
            forall|i: int, j: int|
                0 <= i < self.h() && 0 <= j < self.w() ==> #[trigger] r.at(i, j) == self.at(i, j),
    {
        let n = self.elems.len();
        let mut v: Vec<T> = Vec::new();
        let mut k: usize = 0;
        while k < n
            invariant
                self.wf(),
                n == self.w() * self.h(),
                k <= n,
                v@.len() == k,
                forall|q: int| 0 <= q < k ==> (#[trigger] v@[q]).valid() && v@[q]@ == self.entry(q),
            decreases n - k,
        {
            v.push(self.elems[k].copy_num());
            k = k + 1;
        }
        let r = Matrix { elems: v, width: self.width, height: self.height };
        assert forall|i: int, j: int|
            0 <= i < self.h() && 0 <= j < self.w() implies #[trigger] r.at(i, j) == self.at(i, j) by {
            lemma_idx(i, j, i, self.w() as int, self.w() as int, self.h() as int);
        }
        r
    }

    pub fn width(&self) -> (r: usize)
        ensures
            r == self.w(),
    {
        self.width
    }

    pub fn height(&self) -> (r: usize)
        ensures
            r == self.h(),
    {
        self.height
    }
}

} // verus!
