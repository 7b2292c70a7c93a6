//! Cutting hidden states into rows for a diffusion step, and joining what comes
//! back.

use vstd::prelude::*;

use crate::compute::Patch;
use crate::tensor::Tensor;
use crate::text;

verus! {

/// Why hidden states cannot be cut.
#[derive(Debug, Clone, Copy, PartialEq, Eq, Structural)]
pub enum RowsError {
    /// Hidden states come with a batch, a sequence and a width.
    NotThreeDimensional,
    /// The numbers are of a type whose size is not known here.
    UnsupportedDtype,
}

impl RowsError {
    /// What is wrong, in words; `dtype` is the type of the numbers.
    pub open spec fn text(self, dtype: Seq<char>) -> Seq<char> {
        match self {
            RowsError::NotThreeDimensional => "expected [batch, sequence, width] hidden states"@,
            RowsError::UnsupportedDtype => "unsupported dtype "@ + dtype,
        }
    }

    /// What is wrong, in words; `dtype` is the type of the numbers.
    pub fn message(&self, dtype: &str) -> (s: String)
        ensures
            s@ == self.text(dtype@),
    {
        match self {
            RowsError::NotThreeDimensional => {
                "expected [batch, sequence, width] hidden states".to_string()
            },
            RowsError::UnsupportedDtype => {
                let mut s: String = "unsupported dtype ".to_string();
                s.append(dtype);
                s
            },
        }
    }
}

/// How many bytes a number of a type takes.
pub open spec fn size_of_element(dtype: Seq<char>) -> Option<nat> {
    if dtype == "float32"@ || dtype == "int32"@ {
        Some(4)
    } else if dtype == "float16"@ || dtype == "bfloat16"@ {
        Some(2)
    } else if dtype == "int64"@ || dtype == "float64"@ {
        Some(8)
    } else {
        None
    }
}

/// How many bytes a number of a type takes.
pub fn element_size(dtype: &str) -> (r: Result<usize, RowsError>)
    ensures
        match r {
            Ok(n) => size_of_element(dtype@) == Some(n as nat),
            Err(e) => size_of_element(dtype@) is None && e == RowsError::UnsupportedDtype,
        },
{
    if text::str_eq(dtype, "float32") || text::str_eq(dtype, "int32") {
        Ok(4)
    } else if text::str_eq(dtype, "float16") || text::str_eq(dtype, "bfloat16") {
        Ok(2)
    } else if text::str_eq(dtype, "int64") || text::str_eq(dtype, "float64") {
        Ok(8)
    } else {
        Err(RowsError::UnsupportedDtype)
    }
}

/// How many bytes a row of hidden states takes.
pub open spec fn row_bytes(t: crate::tensor::TensorView) -> nat {
    (t.shape[2] as usize) as nat * size_of_element(t.dtype).unwrap()
}

/// Whether the rows `start` to `stop` are there, where rows can be told at all.
pub open spec fn rows_there(t: crate::tensor::TensorView, start: int, stop: int) -> bool {
    t.shape.len() == 3 && size_of_element(t.dtype) is Some ==> {
        &&& start <= stop
        &&& row_bytes(t) <= usize::MAX
        &&& stop * row_bytes(t) <= t.data.len()
    }
}

/// Whether the rows `start` to `stop` are there, where rows can be told at all.
pub fn has_rows(tensor: &Tensor, start: usize, stop: usize) -> (r: bool)
    ensures
        r == rows_there(tensor@, start as int, stop as int),
{
    if tensor.shape.len() != 3 {
        return true;
    }
    let unit: usize = match element_size(tensor.dtype.as_str()) {
        Ok(u) => u,
        Err(_) => {
            return true;
        },
    };
    let width: usize = tensor.shape[2] as usize;
    let row: u128 = width as u128 * unit as u128;
    assert(row == row_bytes(tensor@));
    if start > stop || row > usize::MAX as u128 {
        return false;
    }
    proof {
        assert(stop * row <= 0xffff_ffff_ffff_ffff * 0xffff_ffff_ffff_ffff) by (nonlinear_arith)
            requires
                0 <= stop <= 0xffff_ffff_ffff_ffff,
                0 <= row <= 0xffff_ffff_ffff_ffff,
        ;
        assert(tensor.data@.len() == tensor.data.len());
    }
    stop as u128 * row <= tensor.data.len() as u128
}

/// The rows `start` to `stop` of hidden states.
pub open spec fn rows_of(t: crate::tensor::TensorView, start: int, stop: int) -> Result<
    crate::tensor::TensorView,
    RowsError,
> {
    if t.shape.len() != 3 {
        Err(RowsError::NotThreeDimensional)
    } else if size_of_element(t.dtype) is None {
        Err(RowsError::UnsupportedDtype)
    } else {
        let rows = (stop - start) as i64;
        Ok(
            crate::tensor::TensorView {
                shape: seq![t.shape[0], rows, t.shape[2]],
                dtype: t.dtype,
                data: t.data.subrange(start * row_bytes(t), stop * row_bytes(t)),
            },
        )
    }
}

/// The rows `start` to `stop` of hidden states.
pub fn slice_rows(tensor: &Tensor, start: usize, stop: usize) -> (r: Result<Tensor, RowsError>)
    requires
        rows_there(tensor@, start as int, stop as int),
    ensures
        match r {
            Ok(t) => rows_of(tensor@, start as int, stop as int) == Ok::<
                crate::tensor::TensorView,
                RowsError,
            >(t@),
            Err(e) => rows_of(tensor@, start as int, stop as int) == Err::<
                crate::tensor::TensorView,
                RowsError,
            >(e),
        },
{
    if tensor.shape.len() != 3 {
        return Err(RowsError::NotThreeDimensional);
    }
    let width: usize = tensor.shape[2] as usize;
    let unit: usize = match element_size(tensor.dtype.as_str()) {
        Ok(u) => u,
        Err(e) => {
            return Err(e);
        },
    };
    let row: usize = width * unit;
    assert(row == row_bytes(tensor@));
    proof {
        assert(start * row <= stop * row) by (nonlinear_arith)
            requires
                start <= stop,
        ;
        assert(tensor.data@.len() == tensor.data.len());
    }
    let from: usize = start * row;
    let to: usize = stop * row;
    let data: Vec<u8> = text::slice_bytes(tensor.data.as_slice(), from, to);
    let rows: i64 = (stop - start) as i64;
    let shape: Vec<i64> = vec![tensor.shape[0], rows, tensor.shape[2]];
    assert(shape@ =~= seq![tensor.shape@[0], rows, tensor.shape@[2]]);
    Ok(Tensor { shape, dtype: tensor.dtype.clone(), data })
}

/// What the tensors of a list hold.
pub open spec fn tensor_views(ts: Seq<Tensor>) -> Seq<crate::tensor::TensorView> {
    Seq::new(ts.len(), |i: int| ts[i]@)
}

/// The rows of pieces, added up.
pub open spec fn row_sum(pieces: Seq<crate::tensor::TensorView>) -> int
    decreases pieces.len(),
{
    if pieces.len() == 0 {
        0
    } else {
        row_sum(pieces.drop_last()) + pieces.last().shape[1]
    }
}

/// The data of pieces, one behind the other.
pub open spec fn data_joined(pieces: Seq<crate::tensor::TensorView>) -> Seq<u8>
    decreases pieces.len(),
{
    if pieces.len() == 0 {
        Seq::empty()
    } else {
        data_joined(pieces.drop_last()) + pieces.last().data
    }
}

/// Pieces joined to hidden states like others: all their rows, and the type of
/// the first of them.
pub open spec fn rows_joined(
    pieces: Seq<crate::tensor::TensorView>,
    like: crate::tensor::TensorView,
) -> crate::tensor::TensorView {
    crate::tensor::TensorView {
        shape: seq![like.shape[0], row_sum(pieces) as i64, like.shape[2]],
        dtype: if pieces.len() > 0 {
            pieces[0].dtype
        } else {
            like.dtype
        },
        data: data_joined(pieces),
    }
}

/// Whether pieces have rows that can be added up one after the other.
pub open spec fn joinable(
    pieces: Seq<crate::tensor::TensorView>,
    like: crate::tensor::TensorView,
) -> bool {
    &&& like.shape.len() >= 3
    &&& forall|i: int| 0 <= i < pieces.len() ==> (#[trigger] pieces[i]).shape.len() >= 2
    &&& forall|n: int|
        0 <= n <= pieces.len() ==> i64::MIN <= row_sum(#[trigger] pieces.take(n)) <= i64::MAX
}

/// Whether pieces have rows that can be added up one after the other.
pub fn can_join(pieces: &[Tensor], like: &Tensor) -> (r: bool)
    ensures
        r == joinable(tensor_views(pieces@), like@),
{
    if like.shape.len() < 3 {
        return false;
    }
    let ghost ps = tensor_views(pieces@);
    let mut rows: i64 = 0;
    let mut i: usize = 0;
    assert(row_sum(ps.take(0)) == 0);
    while i < pieces.len()
        invariant
            i <= pieces@.len(),
            ps == tensor_views(pieces@),
            rows == row_sum(ps.take(i as int)),
            forall|k: int| 0 <= k < i ==> (#[trigger] ps[k]).shape.len() >= 2,
            forall|n: int|
                0 <= n <= i ==> i64::MIN <= row_sum(#[trigger] ps.take(n)) <= i64::MAX,
        decreases pieces@.len() - i,
    {
        assert(ps[i as int] == pieces@[i as int]@);
        if pieces[i].shape.len() < 2 {
            return false;
        }
        let sum: i128 = rows as i128 + pieces[i].shape[1] as i128;
        proof {
            assert(ps.take(i + 1).drop_last() =~= ps.take(i as int));
            assert(sum == row_sum(ps.take(i + 1)));
        }
        if sum < i64::MIN as i128 || sum > i64::MAX as i128 {
            return false;
        }
        rows = sum as i64;
        i += 1;
    }
    true
}

/// Joins pieces to hidden states like others.
pub fn join_rows(pieces: &[Tensor], like: &Tensor) -> (r: Tensor)
    requires
        joinable(tensor_views(pieces@), like@),
    ensures
        r@ == rows_joined(tensor_views(pieces@), like@),
{
    let mut data: Vec<u8> = Vec::new();
    let mut rows: i64 = 0;
    let ghost ps = tensor_views(pieces@);
    let mut i: usize = 0;
    assert(data@ =~= data_joined(ps.take(0)));
    while i < pieces.len()
        invariant
            i <= pieces@.len(),
            ps == tensor_views(pieces@),
            joinable(ps, like@),
            rows == row_sum(ps.take(i as int)),
            data@ == data_joined(ps.take(i as int)),
        decreases pieces@.len() - i,
    {
        proof {
            assert(ps.take(i + 1).drop_last() =~= ps.take(i as int));
            assert(ps[i as int] == pieces@[i as int]@);
            assert(row_sum(ps.take(i + 1)) == rows + ps[i as int].shape[1]);
        }
        text::append_bytes(&mut data, pieces[i].data.as_slice());
        rows += pieces[i].shape[1];
        i += 1;
    }
    assert(ps.take(i as int) =~= ps);
    let dtype: String = if pieces.len() > 0 {
        assert(ps[0] == pieces@[0]@);
        pieces[0].dtype.clone()
    } else {
        like.dtype.clone()
    };
    let shape: Vec<i64> = vec![like.shape[0], rows, like.shape[2]];
    assert(shape@ =~= seq![like.shape@[0], row_sum(ps) as i64, like.shape@[2]]);
    Tensor { shape, dtype, data }
}

// ---------------------------------------------------------------------------
// Planning a step
// ---------------------------------------------------------------------------

/// The quotient, rounded up.
pub open spec fn div_up(a: nat, b: nat) -> nat {
    if a % b == 0 {
        a / b
    } else {
        a / b + 1
    }
}

/// How many rows each piece gets where a sequence is cut into `count` pieces;
/// the last may get fewer.
pub open spec fn piece_size(sequence: nat, count: nat) -> nat {
    div_up(
        sequence,
        if count == 0 {
            1
        } else {
            count
        },
    )
}

/// The rows of the piece at a place.
pub open spec fn piece_at(sequence: nat, size: nat, i: nat) -> (nat, nat) {
    (
        i * size,
        if (i + 1) * size <= sequence {
            (i + 1) * size
        } else {
            sequence
        },
    )
}

/// What a list of ranges holds.
pub open spec fn range_views(v: Seq<(usize, usize)>) -> Seq<(nat, nat)> {
    Seq::new(v.len(), |i: int| (v[i].0 as nat, v[i].1 as nat))
}

/// The ranges are the pieces of a sequence that is cut into `count`: those that
/// have a row, in order.
pub open spec fn cuts(v: Seq<(nat, nat)>, sequence: nat, count: nat) -> bool {
    let size = piece_size(sequence, count);
    &&& v.len() <= count
    &&& forall|i: int|
        0 <= i < v.len() ==> #[trigger] v[i] == piece_at(sequence, size, i as nat) && v[i].0 < v[i].1
    &&& v.len() < count ==> v.len() * size >= sequence
}

proof fn div_up_bounds(a: nat, b: nat)
    requires
        b > 0,
    ensures
        div_up(a, b) * b >= a,
        div_up(a, b) * b < a + b,
        div_up(a, b) <= a,
{
    vstd::arithmetic::div_mod::lemma_fundamental_div_mod(a as int, b as int);
    let q = a / b;
    let r = a % b;
    assert(a == b * q + r);
    assert(q * b == b * q) by (nonlinear_arith);
    assert((q + 1) * b == q * b + b) by (nonlinear_arith);
    assert(q <= a) by (nonlinear_arith)
        requires
            a == b * q + r,
            b > 0,
            r >= 0,
            q >= 0,
    ;
    if r > 0 {
        assert(q + 1 <= a) by (nonlinear_arith)
            requires
                a == b * q + r,
                b > 0,
                r > 0,
                q >= 0,
        ;
    }
}

/// Cuts a sequence into `count` pieces.
pub fn cut_rows(sequence: usize, count: usize) -> (r: Vec<(usize, usize)>)
    requires
        sequence + count < usize::MAX,
    ensures
        cuts(range_views(r@), sequence as nat, count as nat),
{
    let parts: usize = if count == 0 {
        1
    } else {
        count
    };
    let size: usize = if sequence % parts == 0 {
        sequence / parts
    } else {
        sequence / parts + 1
    };
    proof {
        div_up_bounds(sequence as nat, parts as nat);
    }
    let mut r: Vec<(usize, usize)> = Vec::new();
    let mut i: usize = 0;
    while i < count
        invariant
            i <= count,
            count > 0 ==> parts == count,
            sequence + count < usize::MAX,
            size == piece_size(sequence as nat, count as nat),
            size * parts < sequence + parts,
            sequence <= size * parts,
            r@.len() <= i,
            r@.len() < i ==> r@.len() * size >= sequence,
            forall|k: int|
                0 <= k < r@.len() ==> (#[trigger] range_views(r@)[k]) == piece_at(
                    sequence as nat,
                    size as nat,
                    k as nat,
                ) && range_views(r@)[k].0 < range_views(r@)[k].1,
        decreases count - i,
    {
        proof {
            assert((i + 1) * size <= parts * size) by (nonlinear_arith)
                requires
                    i + 1 <= parts,
            ;
            assert(parts * size == size * parts) by (nonlinear_arith);
            assert((i + 1) * size == i * size + size) by (nonlinear_arith);
            if size == 0 {
                assert(size * parts == 0) by (nonlinear_arith)
                    requires
                        size == 0,
                ;
            }
            if r@.len() < i {
                assert(r@.len() * size <= i * size) by (nonlinear_arith)
                    requires
                        r@.len() <= i,
                ;
            }
        }
        let start: usize = i * size;
        let end: usize = (i + 1) * size;
        let stop: usize = if end <= sequence {
            end
        } else {
            sequence
        };
        if start < stop {
            let ghost before = range_views(r@);
            r.push((start, stop));
            assert(range_views(r@) =~= before.push((start as nat, stop as nat)));
        }
        i += 1;
    }
    r
}

/// A diffusion in progress: how many patches a step may be cut into, and how
/// many passes were made.
#[derive(Debug, Clone, Copy, PartialEq, Eq, Structural)]
pub struct Diffusion {
    pub allowed: usize,
    pub calls: usize,
}

/// The lower of a number and a ceiling. No ceiling is written as 0.
pub open spec fn under(n: usize, ceiling: usize) -> usize {
    if ceiling == 0 || n <= ceiling {
        n
    } else {
        ceiling
    }
}

impl Diffusion {
    /// A diffusion that begins: a step may be cut into as many patches as asked
    /// for, or fewer where the model allows fewer.
    pub fn start(patches: usize, max_patches: usize) -> (r: Self)
        ensures
            r.allowed == under(patches, max_patches),
            r.calls == 0,
    {
        let allowed: usize = if max_patches == 0 || patches <= max_patches {
            patches
        } else {
            max_patches
        };
        Diffusion { allowed, calls: 0 }
    }

    /// How many pieces the next pass is cut into: the first pass stays whole.
    pub open spec fn next_pieces(self) -> usize {
        if self.calls == 0 {
            1
        } else {
            self.allowed
        }
    }

    /// The diffusion after a pass, after which the model allows at most `ceiling` patches.
    pub open spec fn after_pass(self, ceiling: usize) -> Diffusion {
        Diffusion { allowed: under(self.allowed, ceiling), calls: (self.calls + 1) as usize }
    }

    /// The diffusion after passes, with the ceiling that came of each.
    pub open spec fn after_passes(self, ceilings: Seq<usize>) -> Diffusion
        decreases ceilings.len(),
    {
        if ceilings.len() == 0 {
            self
        } else {
            self.after_passes(ceilings.drop_last()).after_pass(ceilings.last())
        }
    }

    /// How many pieces the next pass is cut into: the first pass stays whole.
    pub fn pieces(&self) -> (r: usize)
        ensures
            r == self.next_pieces(),
    {
        if self.calls == 0 {
            1
        } else {
            self.allowed
        }
    }

    /// Notes that a pass was made, after which the model allows at most `ceiling`
    /// patches.
    pub fn advance(&mut self, ceiling: usize)
        requires
            old(self).calls < usize::MAX,
        ensures
            *final(self) == old(self).after_pass(ceiling),
            final(self).calls == old(self).calls + 1,
            final(self).allowed <= old(self).allowed,
    {
        self.calls += 1;
        if ceiling > 0 && ceiling < self.allowed {
            self.allowed = ceiling;
        }
    }
}

/// What goes along with the pieces of a step: each begins where its rows do, and
/// the first takes along the layout and the further tensors.
pub open spec fn patch_for(p: crate::compute::PatchView, offset: nat, first: bool) -> crate::compute::PatchView {
    crate::compute::PatchView {
        offset: offset as u64,
        sequence: p.sequence,
        branch: p.branch,
        layout: if first {
            p.layout
        } else {
            Seq::empty()
        },
        arguments: if first {
            p.arguments
        } else {
            Seq::empty()
        },
    }
}

/// What the patches of a list hold.
pub open spec fn patch_views(ps: Seq<Patch>) -> Seq<crate::compute::PatchView> {
    Seq::new(ps.len(), |i: int| ps[i]@)
}

/// What goes along with each of the pieces of a step.
pub open spec fn steps_for(
    p: crate::compute::PatchView,
    v: Seq<(nat, nat)>,
    steps: Seq<crate::compute::PatchView>,
) -> bool {
    &&& steps.len() == v.len()
    &&& forall|i: int| 0 <= i < v.len() ==> #[trigger] steps[i] == patch_for(p, v[i].0, i == 0)
}

/// What goes along with each piece of a step.
pub fn patch_steps(patch: Patch, ranges: &Vec<(usize, usize)>) -> (r: Vec<Patch>)
    ensures
        steps_for(patch@, range_views(ranges@), patch_views(r@)),
        r@.len() == ranges@.len(),
        forall|i: int| 0 <= i < r@.len() ==> (#[trigger] r@[i]).offset == ranges@[i].0,
{
    let ghost whole = patch@;
    let sequence: u64 = patch.sequence;
    let branch: String = patch.branch.clone();
    let mut r: Vec<Patch> = Vec::new();
    if ranges.len() == 0 {
        assert(steps_for(whole, range_views(ranges@), patch_views(r@)));
        return r;
    }
    let first = Patch {
        offset: ranges[0].0 as u64,
        sequence,
        branch: branch.clone(),
        layout: patch.layout,
        arguments: patch.arguments,
    };
    r.push(first);
    let mut i: usize = 1;
    while i < ranges.len()
        invariant
            1 <= i <= ranges@.len(),
            r@.len() == i,
            sequence == whole.sequence,
            branch@ == whole.branch,
            forall|k: int|
                0 <= k < i ==> #[trigger] patch_views(r@)[k] == patch_for(
                    whole,
                    ranges@[k].0 as nat,
                    k == 0,
                ),
        decreases ranges@.len() - i,
    {
        let ghost before = patch_views(r@);
        let next = Patch {
            offset: ranges[i].0 as u64,
            sequence,
            branch: branch.clone(),
            layout: String::new(),
            arguments: Vec::new(),
        };
        proof {
            assert(next@.arguments =~= Seq::<(u32, crate::tensor::TensorView)>::empty());
            assert(next@.layout =~= Seq::<char>::empty());
        }
        let ghost item = next@;
        r.push(next);
        assert(patch_views(r@) =~= before.push(item));
        i += 1;
    }
    proof {
        assert forall|k: int| 0 <= k < r@.len() implies (#[trigger] r@[k]).offset
            == ranges@[k].0 by {
            assert(patch_views(r@)[k] == patch_for(whole, ranges@[k].0 as nat, k == 0));
        }
    }
    r
}

// ---------------------------------------------------------------------------
// Laws
// ---------------------------------------------------------------------------

/// The pieces of a cut begin at the first row, each begins where the one before
/// ends, and the last ends with the sequence: no row is lost, and none is in two.
pub proof fn a_cut_loses_no_row(v: Seq<(nat, nat)>, sequence: nat, count: nat)
    requires
        cuts(v, sequence, count),
        count > 0,
        sequence > 0,
    ensures
        v.len() > 0,
        v[0].0 == 0,
        v.last().1 == sequence,
        forall|i: int| 0 <= i < v.len() - 1 ==> (#[trigger] v[i]).1 == v[i + 1].0,
{
    let size = piece_size(sequence, count);
    div_up_bounds(sequence, count);
    assert(0 * size == 0) by (nonlinear_arith);
    if v.len() == 0 {
        assert(v.len() * size == 0) by (nonlinear_arith)
            requires
                v.len() == 0,
        ;
    }
    assert(v[0] == piece_at(sequence, size, 0));
    let n = v.len();
    assert(v[n - 1] == piece_at(sequence, size, (n - 1) as nat));
    if n == count {
        assert(n * size == size * count) by (nonlinear_arith)
            requires
                n == count,
        ;
    }
    assert forall|i: int| 0 <= i < v.len() - 1 implies (#[trigger] v[i]).1 == v[i + 1].0 by {
        assert(v[i] == piece_at(sequence, size, i as nat));
        assert(v[i + 1] == piece_at(sequence, size, (i + 1) as nat));
    }
}

/// The rows of the pieces of a list of ranges.
pub open spec fn sliced(
    t: crate::tensor::TensorView,
    v: Seq<(nat, nat)>,
) -> Seq<crate::tensor::TensorView> {
    Seq::new(v.len(), |i: int| rows_of(t, v[i].0 as int, v[i].1 as int).unwrap())
}

proof fn slices_join_so_far(t: crate::tensor::TensorView, v: Seq<(nat, nat)>, n: int)
    requires
        t.shape.len() == 3,
        size_of_element(t.dtype) is Some,
        v.len() > 0 ==> v[0].0 == 0,
        forall|i: int| 0 <= i < v.len() - 1 ==> (#[trigger] v[i]).1 == v[i + 1].0,
        forall|i: int|
            0 <= i < v.len() ==> (#[trigger] v[i]).0 <= v[i].1 && v[i].1 * row_bytes(t)
                <= t.data.len() && v[i].1 <= i64::MAX,
        0 <= n <= v.len(),
    ensures
        n == 0 ==> data_joined(sliced(t, v).take(n)) == Seq::<u8>::empty() && row_sum(
            sliced(t, v).take(n),
        ) == 0,
        n > 0 ==> data_joined(sliced(t, v).take(n)) == t.data.take(
            (v[n - 1].1 * row_bytes(t)) as int,
        ) && row_sum(sliced(t, v).take(n)) == v[n - 1].1,
    decreases n,
{
    let all = sliced(t, v);
    let row = row_bytes(t);
    if n > 0 {
        slices_join_so_far(t, v, n - 1);
        assert(all.take(n).drop_last() =~= all.take(n - 1));
        assert(all.take(n).last() == all[n - 1]);
        let (start, stop) = v[n - 1];
        assert(start * row <= stop * row) by (nonlinear_arith)
            requires
                start <= stop,
        ;
        if n > 1 {
            assert(v[n - 2].1 == v[n - 1].0);
        } else {
            assert(0 * row == 0) by (nonlinear_arith);
        }
        assert(data_joined(all.take(n)) =~= t.data.take((stop * row) as int));
    }
}

/// Ranges that begin at the first row, follow each other without a break, and end
/// with the last row.
pub open spec fn in_a_row(v: Seq<(nat, nat)>, sequence: nat) -> bool {
    &&& v.len() > 0
    &&& v[0].0 == 0
    &&& v.last().1 == sequence
    &&& forall|i: int| 0 <= i < v.len() ==> (#[trigger] v[i]).0 <= v[i].1
    &&& forall|i: int| 0 <= i < v.len() - 1 ==> (#[trigger] v[i]).1 == v[i + 1].0
}

proof fn ends_in_a_row(v: Seq<(nat, nat)>, sequence: nat, i: int)
    requires
        in_a_row(v, sequence),
        0 <= i < v.len(),
    ensures
        v[i].1 <= sequence,
    decreases v.len() - i,
{
    if i < v.len() - 1 {
        ends_in_a_row(v, sequence, i + 1);
    }
}

/// What `cut_rows` makes of at least one row is such a list of ranges.
pub proof fn a_cut_is_in_a_row(v: Seq<(nat, nat)>, sequence: nat, count: nat)
    requires
        cuts(v, sequence, count),
        count > 0,
        sequence > 0,
    ensures
        in_a_row(v, sequence),
{
    a_cut_loses_no_row(v, sequence, count);
}

/// Hidden states that were cut into pieces, wherever the cuts lie, and joined
/// again are what they were: the same rows, in the same order.
pub proof fn what_was_cut_joins_again(t: crate::tensor::TensorView, v: Seq<(nat, nat)>)
    requires
        t.shape.len() == 3,
        size_of_element(t.dtype) is Some,
        t.shape[1] >= 0,
        t.data.len() == t.shape[1] * row_bytes(t),
        in_a_row(v, t.shape[1] as nat),
    ensures
        rows_joined(sliced(t, v), t) == t,
{
    let sequence = t.shape[1] as nat;
    let row = row_bytes(t);
    assert forall|i: int| 0 <= i < v.len() implies (#[trigger] v[i]).0 <= v[i].1 && v[i].1 * row
        <= t.data.len() && v[i].1 <= i64::MAX by {
        ends_in_a_row(v, sequence, i);
        assert(v[i].1 * row <= sequence * row) by (nonlinear_arith)
            requires
                v[i].1 <= sequence,
        ;
    }
    slices_join_so_far(t, v, v.len() as int);
    let all = sliced(t, v);
    assert(all.take(v.len() as int) =~= all);
    assert(t.data.take((sequence * row) as int) =~= t.data);
    assert(rows_joined(all, t).shape =~= t.shape);
    assert(all[0].dtype == t.dtype);
}

/// The pieces of a cut are as few rows as can be and still make up the sequence in so
/// many pieces, and all have as many rows as the first but the last, which may have
/// fewer.
pub proof fn a_cut_is_even(v: Seq<(nat, nat)>, sequence: nat, count: nat)
    requires
        cuts(v, sequence, count),
        count > 0,
        sequence > 0,
    ensures
        v.len() <= count,
        forall|i: int|
            0 <= i < v.len() - 1 ==> (#[trigger] v[i]).1 - v[i].0 == v[0].1 - v[0].0,
        0 < v.last().1 - v.last().0 <= v[0].1 - v[0].0,
        (v[0].1 - v[0].0 - 1) * count < sequence,
{
    let size = piece_size(sequence, count);
    a_cut_loses_no_row(v, sequence, count);
    div_up_bounds(sequence, count);
    assert(0 * size == 0 && 1 * size == size) by (nonlinear_arith);
    assert(v[0] == piece_at(sequence, size, 0));
    assert((size - 1) * count == size * count - count) by (nonlinear_arith);
    assert forall|i: int| 0 <= i < v.len() - 1 implies (#[trigger] v[i]).1 - v[i].0 == v[0].1
        - v[0].0 by {
        assert(v[i] == piece_at(sequence, size, i as nat));
        assert(v[i + 1] == piece_at(sequence, size, (i + 1) as nat));
        assert((i + 1) * size == i * size + size) by (nonlinear_arith);
        assert(size <= (i + 1) * size) by (nonlinear_arith)
            requires
                i >= 0,
        ;
    }
    let n = v.len() - 1;
    assert(v[n] == piece_at(sequence, size, n as nat));
    assert((n + 1) * size == n * size + size) by (nonlinear_arith);
    let w = v[0].1 - v[0].0;
    if w < size {
        assert((w - 1) * count <= (size - 1) * count) by (nonlinear_arith)
            requires
                w < size,
                count > 0,
        ;
        assert(v[0].1 == sequence);
        if n > 0 {
            assert(v[0].1 == v[1].0);
            assert(v[1] == piece_at(sequence, size, 1));
        }
    }
}

/// What goes along with a piece says where its rows begin: the offset of each is the first
/// row of its range, the first is 0, each plus the rows of its piece is the next, and the
/// last plus the rows of its piece is the whole sequence. All say how much there is and
/// which branch it is; the layout and the further tensors go along once, with the first.
pub proof fn each_patch_begins_where_its_rows_do(
    p: crate::compute::PatchView,
    v: Seq<(nat, nat)>,
    steps: Seq<crate::compute::PatchView>,
    sequence: nat,
    i: int,
)
    requires
        steps_for(p, v, steps),
        in_a_row(v, sequence),
        sequence <= u64::MAX,
        0 <= i < v.len(),
    ensures
        steps[i].offset == v[i].0,
        steps[0].offset == 0,
        i < v.len() - 1 ==> steps[i].offset + (v[i].1 - v[i].0) == steps[i + 1].offset,
        i == v.len() - 1 ==> steps[i].offset + (v[i].1 - v[i].0) == sequence,
        forall|j: int|
            i < j < v.len() && v[i].0 < v[i].1 ==> steps[i].offset < (#[trigger] steps[j]).offset,
        steps[i].sequence == p.sequence,
        steps[i].branch == p.branch,
        i == 0 ==> steps[i].layout == p.layout && steps[i].arguments == p.arguments,
        i > 0 ==> steps[i].layout.len() == 0 && steps[i].arguments.len() == 0,
{
    ends_in_a_row(v, sequence, i);
    ends_in_a_row(v, sequence, 0);
    assert(steps[i] == patch_for(p, v[i].0, i == 0));
    assert(steps[0] == patch_for(p, v[0].0, true));
    if i < v.len() - 1 {
        ends_in_a_row(v, sequence, i + 1);
        assert(steps[i + 1] == patch_for(p, v[i + 1].0, false));
    }
    assert forall|j: int| i < j < v.len() && v[i].0 < v[i].1 implies steps[i].offset < (
    #[trigger] steps[j]).offset by {
        ends_in_a_row(v, sequence, j);
        starts_behind(v, sequence, i, j);
        assert(steps[j] == patch_for(p, v[j].0, j == 0));
    }
}

proof fn starts_behind(v: Seq<(nat, nat)>, sequence: nat, i: int, j: int)
    requires
        in_a_row(v, sequence),
        0 <= i < j < v.len(),
    ensures
        v[i].1 <= v[j].0,
    decreases j,
{
    assert(v[j - 1].1 == v[j].0);
    if i < j - 1 {
        starts_behind(v, sequence, i, j - 1);
    }
}

/// A ceiling is kept: the number stays the greatest that is neither above itself nor above
/// the ceiling, where there is one.
pub proof fn a_ceiling_is_kept(n: usize, ceiling: usize)
    ensures
        under(n, ceiling) <= n,
        ceiling > 0 ==> under(n, ceiling) <= ceiling,
        under(n, ceiling) == n || under(n, ceiling) == ceiling,
        ceiling == 0 ==> under(n, ceiling) == n,
{
}

/// The first pass of a diffusion is whole. Of the later ones each is cut into at most as
/// many pieces as were asked for, as the model allows from the beginning, and as it
/// allowed after any pass before; and into just as many as were asked for where none of
/// these is less.
pub proof fn a_diffusion_keeps_every_ceiling(
    patches: usize,
    max_patches: usize,
    ceilings: Seq<usize>,
)
    requires
        ceilings.len() < usize::MAX,
    ensures
        ({
            let start = Diffusion { allowed: under(patches, max_patches), calls: 0 };
            let now = start.after_passes(ceilings);
            &&& start.next_pieces() == 1
            &&& now.calls == ceilings.len()
            &&& ceilings.len() > 0 ==> {
                &&& now.next_pieces() <= patches
                &&& max_patches > 0 ==> now.next_pieces() <= max_patches
                &&& forall|i: int|
                    0 <= i < ceilings.len() && #[trigger] ceilings[i] > 0 ==> now.next_pieces()
                        <= ceilings[i]
                &&& (max_patches == 0 || patches <= max_patches) && (forall|i: int|
                    0 <= i < ceilings.len() ==> #[trigger] ceilings[i] == 0 || patches
                        <= ceilings[i]) ==> now.next_pieces() == patches
            }
        }),
    decreases ceilings.len(),
{
    let start = Diffusion { allowed: under(patches, max_patches), calls: 0 };
    if ceilings.len() > 0 {
        let init = ceilings.drop_last();
        a_diffusion_keeps_every_ceiling(patches, max_patches, init);
        let before = start.after_passes(init);
        let now = start.after_passes(ceilings);
        if init.len() == 0 {
            assert(before == start);
        }
        assert forall|i: int| 0 <= i < ceilings.len() && #[trigger] ceilings[i] > 0 implies
            now.next_pieces() <= ceilings[i] by {
            if i < init.len() {
                assert(init[i] == ceilings[i]);
            }
        }
        if forall|i: int|
            0 <= i < ceilings.len() ==> #[trigger] ceilings[i] == 0 || patches <= ceilings[i] {
            assert forall|i: int| 0 <= i < init.len() implies #[trigger] init[i] == 0 || patches
                <= init[i] by {
                assert(init[i] == ceilings[i]);
            }
            assert(ceilings.last() == ceilings[ceilings.len() - 1]);
        }
    }
}

/// A type of numbers is named by how many bits a number takes: eight times its bytes.
pub proof fn a_type_is_named_by_its_bits(dtype: Seq<char>)
    requires
        size_of_element(dtype) is Some,
    ensures
        ({
            let bits = text::dec(8 * size_of_element(dtype).unwrap());
            dtype == "float"@ + bits || dtype == "int"@ + bits || dtype == "bfloat"@ + bits
        }),
{
    reveal_with_fuel(text::numeral, 3);
    reveal_strlit("float");
    reveal_strlit("int");
    reveal_strlit("bfloat");
    reveal_strlit("float32");
    reveal_strlit("int32");
    reveal_strlit("float16");
    reveal_strlit("bfloat16");
    reveal_strlit("int64");
    reveal_strlit("float64");
    assert("float32"@ =~= "float"@ + text::dec(32));
    assert("int32"@ =~= "int"@ + text::dec(32));
    assert("float16"@ =~= "float"@ + text::dec(16));
    assert("bfloat16"@ =~= "bfloat"@ + text::dec(16));
    assert("int64"@ =~= "int"@ + text::dec(64));
    assert("float64"@ =~= "float"@ + text::dec(64));
}

/// The rows that are taken are those that were asked for, each as it was and in its place,
/// and there are as many as asked for.
pub proof fn each_row_is_taken_as_it_was(
    t: crate::tensor::TensorView,
    start: int,
    stop: int,
    i: int,
)
    requires
        t.shape.len() == 3,
        size_of_element(t.dtype) is Some,
        0 <= start <= i < stop <= i64::MAX,
        stop * row_bytes(t) <= t.data.len(),
    ensures
        rows_of(t, start, stop) matches Ok(part) && {
            let row = row_bytes(t) as int;
            &&& part.data.subrange((i - start) * row, (i - start) * row + row) == t.data.subrange(
                i * row,
                i * row + row,
            )
            &&& part.data.len() == (stop - start) * row
            &&& 0 <= t.shape[2] <= usize::MAX ==> row == t.shape[2] * size_of_element(
                t.dtype,
            ).unwrap()
            &&& part.shape == seq![t.shape[0], (stop - start) as i64, t.shape[2]]
            &&& part.dtype == t.dtype
        },
{
    let row = row_bytes(t) as int;
    assert(start * row <= i * row && i * row + row <= stop * row && (i - start) * row == i * row
        - start * row && (stop - start) * row == stop * row - start * row && 0 <= start * row)
        by (nonlinear_arith)
        requires
            0 <= start <= i < stop,
            row >= 0,
    ;
    let part = rows_of(t, start, stop)->Ok_0;
    assert(part.data.subrange((i - start) * row, (i - start) * row + row) =~= t.data.subrange(
        i * row,
        i * row + row,
    ));
}

} // verus!
