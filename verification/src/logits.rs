//! From the output of the last stage to the next token.
//!
//! A node that answers with scores sends the bits of floating-point numbers.
//! They are ordered here by their bits: the sign, and then the magnitude.

use vstd::prelude::*;

use crate::tensor::Tensor;
use crate::text;
use crate::wire;

verus! {

/// Why a tensor names no next token.
#[derive(Debug, Clone, Copy, PartialEq, Eq, Structural)]
pub enum LogitsError {
    /// Scores come with three dimensions.
    NotThreeDimensional,
    /// The data does not hold as many scores as the dimensions say.
    TooShort,
    /// The scores are of a type that is not read here.
    UnsupportedDtype,
    /// A short list of candidates is empty, or its data is cut short.
    MalformedTopK,
}

/// How a list of dimensions is written.
pub open spec fn shape_text(shape: Seq<i64>) -> Seq<char> {
    "["@ + text::joined(Seq::new(shape.len(), |i: int| text::dec_int(shape[i] as int)), ", "@)
        + "]"@
}

/// Writes a list of dimensions.
pub fn write_shape(shape: &Vec<i64>) -> (s: String)
    ensures
        s@ == shape_text(shape@),
{
    let mut parts: Vec<String> = Vec::new();
    let mut i: usize = 0;
    let ghost want = Seq::new(shape@.len(), |i: int| text::dec_int(shape@[i] as int));
    while i < shape.len()
        invariant
            i <= shape@.len(),
            want == Seq::new(shape@.len(), |i: int| text::dec_int(shape@[i] as int)),
            text::views(parts@) == want.take(i as int),
        decreases shape@.len() - i,
    {
        let ghost before = text::views(parts@);
        parts.push(text::decimal_i64(shape[i]));
        proof {
            assert(text::views(parts@) =~= before.push(want[i as int]));
            assert(want.take(i + 1) =~= want.take(i as int).push(want[i as int]));
        }
        i += 1;
    }
    assert(want.take(i as int) =~= want);
    let mut s: String = "[".to_string();
    s.append(text::join(&parts, ", ").as_str());
    s.append("]");
    s
}

impl LogitsError {
    /// What is wrong with a tensor, in words.
    pub open spec fn text(self, t: crate::tensor::TensorView) -> Seq<char> {
        match self {
            LogitsError::NotThreeDimensional => "expected 3D logits, got shape "@ + shape_text(
                t.shape,
            ),
            LogitsError::TooShort => "logits payload too short for shape "@ + shape_text(t.shape),
            LogitsError::UnsupportedDtype => "unsupported logits dtype "@ + t.dtype,
            LogitsError::MalformedTopK => "malformed top-k payload: shape "@ + shape_text(t.shape)
                + ", "@ + text::dec(t.data.len()) + " bytes"@,
        }
    }

    /// What is wrong with a tensor, in words.
    pub fn message(&self, t: &Tensor) -> (s: String)
        ensures
            s@ == self.text(t@),
    {
        match self {
            LogitsError::NotThreeDimensional => {
                let mut s: String = "expected 3D logits, got shape ".to_string();
                s.append(write_shape(&t.shape).as_str());
                s
            },
            LogitsError::TooShort => {
                let mut s: String = "logits payload too short for shape ".to_string();
                s.append(write_shape(&t.shape).as_str());
                s
            },
            LogitsError::UnsupportedDtype => {
                let mut s: String = "unsupported logits dtype ".to_string();
                s.append(t.dtype.as_str());
                s
            },
            LogitsError::MalformedTopK => {
                let mut s: String = "malformed top-k payload: shape ".to_string();
                s.append(write_shape(&t.shape).as_str());
                s.append(", ");
                s.append(text::decimal(t.data.len() as u64).as_str());
                s.append(" bytes");
                s
            },
        }
    }
}

// ---------------------------------------------------------------------------
// The order of 32-bit floating-point numbers
// ---------------------------------------------------------------------------

/// Whether the bits are those of no number.
pub open spec fn is_nan(bits: u32) -> bool {
    bits % 0x8000_0000 > 0x7f80_0000
}

/// A number that orders the bits as the numbers are ordered: negative ones
/// below zero, the two zeros alike.
pub open spec fn order_key(bits: u32) -> int {
    if bits < 0x8000_0000 {
        bits as int
    } else {
        0x8000_0000 - bits
    }
}

/// The key of minus infinity, below which nothing is taken.
pub open spec fn lowest_key() -> int {
    -0x7f80_0000
}

/// The place of the first of the greatest numbers and its key; place 0 and the
/// lowest key where none is above minus infinity.
pub open spec fn greatest(row: Seq<u32>) -> (int, int)
    decreases row.len(),
{
    if row.len() == 0 {
        (0, lowest_key())
    } else {
        let best = greatest(row.drop_last());
        if !is_nan(row.last()) && order_key(row.last()) > best.1 {
            (row.len() - 1, order_key(row.last()))
        } else {
            best
        }
    }
}

/// No number is greater than the greatest, and none before it is as great.
pub proof fn the_greatest_is_the_first_of_the_greatest(row: Seq<u32>)
    ensures
        greatest(row).1 >= lowest_key(),
        forall|i: int|
            0 <= i < row.len() && !is_nan(#[trigger] row[i]) ==> order_key(row[i]) <= greatest(
                row,
            ).1,
        greatest(row).1 == lowest_key() ==> greatest(row).0 == 0,
        greatest(row).1 > lowest_key() ==> {
            &&& 0 <= greatest(row).0 < row.len()
            &&& !is_nan(row[greatest(row).0])
            &&& order_key(row[greatest(row).0]) == greatest(row).1
            &&& forall|i: int|
                0 <= i < greatest(row).0 && !is_nan(#[trigger] row[i]) ==> order_key(row[i])
                    < greatest(row).1
        },
    decreases row.len(),
{
    if row.len() > 0 {
        let init = row.drop_last();
        the_greatest_is_the_first_of_the_greatest(init);
        assert forall|i: int| 0 <= i < row.len() && !is_nan(#[trigger] row[i]) implies order_key(
            row[i],
        ) <= greatest(row).1 by {
            if i < init.len() {
                assert(init[i] == row[i]);
            }
        }
        if greatest(row).1 > lowest_key() {
            let g = greatest(row).0;
            if g < init.len() {
                assert(init[g] == row[g]);
            }
            assert forall|i: int| 0 <= i < g && !is_nan(#[trigger] row[i]) implies order_key(row[i])
                < greatest(row).1 by {
                assert(init[i] == row[i]);
            }
        }
    }
}

/// The bits of the 32-bit numbers in data.
pub open spec fn float32_bits(data: Seq<u8>) -> Seq<u32> {
    Seq::new(
        data.len() / 4,
        |i: int| wire::le_value(data.subrange(4 * i, 4 * i + 4)) as u32,
    )
}

/// The bits of the 16-bit numbers in data, each widened to 32 bits.
pub open spec fn bfloat16_bits(data: Seq<u8>) -> Seq<u32> {
    Seq::new(
        data.len() / 2,
        |i: int| (wire::le_value(data.subrange(2 * i, 2 * i + 2)) * 0x1_0000) as u32,
    )
}

/// The bits of the scores of a tensor, where its type is one that is read here.
pub open spec fn score_bits(t: crate::tensor::TensorView) -> Option<Seq<u32>> {
    if t.dtype == "float32"@ {
        Some(float32_bits(t.data))
    } else if t.dtype == "bfloat16"@ {
        Some(bfloat16_bits(t.data))
    } else {
        None
    }
}

/// The token with the greatest score in the last row: the scores come in
/// `shape[1]` rows of `shape[2]`.
pub open spec fn last_row_argmax(t: crate::tensor::TensorView) -> Result<int, LogitsError> {
    if t.shape.len() != 3 {
        Err(LogitsError::NotThreeDimensional)
    } else {
        let rows = t.shape[1] as usize;
        let vocab = t.shape[2] as usize;
        match score_bits(t) {
            None => Err(LogitsError::UnsupportedDtype),
            Some(bits) => if bits.len() < rows * vocab {
                Err(LogitsError::TooShort)
            } else {
                Ok(greatest(bits.subrange((rows - 1) * vocab, rows * vocab)).0)
            },
        }
    }
}

/// Whether the rows of scores can be counted: there is one, and the place of
/// the last is a number of the machine's.
pub open spec fn countable(t: crate::tensor::TensorView) -> bool {
    t.shape.len() == 3 ==> {
        let rows = t.shape[1] as usize;
        let vocab = t.shape[2] as usize;
        &&& rows > 0
        &&& (rows - 1) * vocab <= usize::MAX
        &&& t.dtype == "float32"@ ==> rows * vocab <= usize::MAX && t.data.len() % 4 == 0
        &&& t.dtype == "bfloat16"@ ==> rows * vocab <= usize::MAX && t.data.len() % 2 == 0
    }
}

fn above(bits: u32, best: i64) -> (r: Option<i64>)
    ensures
        match r {
            Some(k) => !is_nan(bits) && order_key(bits) > best && k == order_key(bits),
            None => is_nan(bits) || order_key(bits) <= best,
        },
{
    if bits % 0x8000_0000 > 0x7f80_0000 {
        return None;
    }
    let key: i64 = if bits < 0x8000_0000 {
        bits as i64
    } else {
        0x8000_0000 - bits as i64
    };
    if key > best {
        Some(key)
    } else {
        None
    }
}

fn greatest_of(data: &Vec<u8>, wide: bool, from: usize, count: usize) -> (g: usize)
    requires
        wide ==> from + count <= data@.len() / 4,
        !wide ==> from + count <= data@.len() / 2,
    ensures
        wide ==> g == greatest(float32_bits(data@).subrange(from as int, from + count)).0,
        !wide ==> g == greatest(bfloat16_bits(data@).subrange(from as int, from + count)).0,
        g < count || g == 0,
{
    let ghost all = if wide {
        float32_bits(data@)
    } else {
        bfloat16_bits(data@)
    };
    let ghost row = all.subrange(from as int, from + count);
    let mut best: usize = 0;
    let mut best_key: i64 = -0x7f80_0000;
    let mut i: usize = 0;
    while i < count
        invariant
            i <= count,
            wide ==> from + count <= data@.len() / 4 && all == float32_bits(data@),
            !wide ==> from + count <= data@.len() / 2 && all == bfloat16_bits(data@),
            data@.len() == data.len(),
            row == all.subrange(from as int, from + count),
            greatest(row.take(i as int)) == (best as int, best_key as int),
            best < count || best == 0,
        decreases count - i,
    {
        let bits: u32 = if wide {
            wire::read_u32(data.as_slice(), 4 * (from + i))
        } else {
            wire::read_u16(data.as_slice(), 2 * (from + i)) as u32 * 0x1_0000
        };
        proof {
            assert(row.take(i + 1).drop_last() =~= row.take(i as int));
            assert(row.take(i + 1).last() == all[from + i]);
            assert(bits == all[from + i]);
        }
        if let Some(key) = above(bits, best_key) {
            best = i;
            best_key = key;
        }
        i += 1;
    }
    assert(row.take(i as int) =~= row);
    best
}

/// The token with the greatest score in the last row.
pub fn argmax_last_row(logits: &Tensor) -> (r: Result<i64, LogitsError>)
    requires
        countable(logits@),
    ensures
        match r {
            Ok(token) => last_row_argmax(logits@) == Ok::<int, LogitsError>(token as int),
            Err(e) => last_row_argmax(logits@) == Err::<int, LogitsError>(e),
        },
{
    if logits.shape.len() != 3 {
        return Err(LogitsError::NotThreeDimensional);
    }
    let rows: usize = logits.shape[1] as usize;
    let vocab: usize = logits.shape[2] as usize;
    let wide: bool = text::str_eq(logits.dtype.as_str(), "float32");
    if !wide && !text::str_eq(logits.dtype.as_str(), "bfloat16") {
        return Err(LogitsError::UnsupportedDtype);
    }
    let offset: usize = (rows - 1) * vocab;
    assert(offset + vocab == rows * vocab) by (nonlinear_arith)
        requires
            offset == (rows - 1) * vocab,
    ;
    let held: usize = if wide {
        logits.data.len() / 4
    } else {
        logits.data.len() / 2
    };
    proof {
        reveal_strlit("float32");
        reveal_strlit("bfloat16");
    }
    if held < offset + vocab {
        return Err(LogitsError::TooShort);
    }
    let g: usize = greatest_of(&logits.data, wide, offset, vocab);
    Ok(g as i64)
}

/// The type of a tensor that holds a short list of candidates: for each the
/// eight bytes of its token, and for each the four bytes of its score.
pub open spec fn topk_dtype() -> Seq<char> {
    "topk_i64_f32"@
}

/// How many candidates a short list says that it holds.
pub open spec fn topk_count(t: crate::tensor::TensorView) -> usize {
    if t.shape.len() == 0 {
        0
    } else {
        t.shape[0] as usize
    }
}

/// The next token: the first of a short list of candidates, or the one with
/// the greatest score in the last row.
pub open spec fn chosen_token(t: crate::tensor::TensorView) -> Result<int, LogitsError> {
    if t.dtype == topk_dtype() {
        let k = topk_count(t);
        if k == 0 || t.data.len() < k * 12 {
            Err(LogitsError::MalformedTopK)
        } else {
            Ok(wire::signed(wire::le_value(t.data.subrange(0, 8))))
        }
    } else {
        last_row_argmax(t)
    }
}

/// Whether the candidates or the rows of scores can be counted.
pub open spec fn choosable(t: crate::tensor::TensorView) -> bool {
    if t.dtype == topk_dtype() {
        topk_count(t) * 12 <= usize::MAX
    } else {
        countable(t)
    }
}

/// The next token that the output of the last stage names.
pub fn next_token(out: &Tensor) -> (r: Result<i64, LogitsError>)
    requires
        choosable(out@),
    ensures
        match r {
            Ok(token) => chosen_token(out@) == Ok::<int, LogitsError>(token as int),
            Err(e) => chosen_token(out@) == Err::<int, LogitsError>(e),
        },
{
    if text::str_eq(out.dtype.as_str(), "topk_i64_f32") {
        let k: usize = if out.shape.len() == 0 {
            0
        } else {
            out.shape[0] as usize
        };
        if k == 0 || out.data.len() < k * 12 {
            return Err(LogitsError::MalformedTopK);
        }
        return Ok(wire::read_i64(out.data.as_slice(), 0));
    }
    argmax_last_token(out)
}

/// The token with the greatest score in the last row.
pub fn argmax_last_token(logits: &Tensor) -> (r: Result<i64, LogitsError>)
    requires
        countable(logits@),
    ensures
        match r {
            Ok(token) => last_row_argmax(logits@) == Ok::<int, LogitsError>(token as int),
            Err(e) => last_row_argmax(logits@) == Err::<int, LogitsError>(e),
        },
{
    argmax_last_row(logits)
}

/// Whether the candidates or the rows of scores of a tensor can be counted.
pub fn can_choose(out: &Tensor) -> (r: bool)
    ensures
        r == choosable(out@),
{
    if text::str_eq(out.dtype.as_str(), "topk_i64_f32") {
        return out.shape.len() == 0 || out.shape[0] as usize <= usize::MAX / 12;
    }
    can_count(out)
}

/// Whether the rows of scores of a tensor can be counted.
pub fn can_count(out: &Tensor) -> (r: bool)
    ensures
        r == countable(out@),
{
    if out.shape.len() != 3 {
        return true;
    }
    let rows: usize = out.shape[1] as usize;
    let vocab: usize = out.shape[2] as usize;
    if rows == 0 {
        return false;
    }
    assert(0 <= (rows - 1) * vocab <= 0xffff_ffff_ffff_ffff * 0xffff_ffff_ffff_ffff)
        by (nonlinear_arith)
        requires
            0 < rows <= 0xffff_ffff_ffff_ffff,
            vocab <= 0xffff_ffff_ffff_ffff,
    ;
    let before: u128 = (rows as u128 - 1) * vocab as u128;
    proof {
        assert((rows as u128 - 1) * vocab as u128 == (rows - 1) * vocab);
        assert((rows - 1) * vocab + vocab == rows * vocab) by (nonlinear_arith);
        reveal_strlit("float32");
        reveal_strlit("bfloat16");
    }
    if before > usize::MAX as u128 {
        return false;
    }
    let fits: bool = before + vocab as u128 <= usize::MAX as u128;
    if text::str_eq(out.dtype.as_str(), "float32") {
        fits && out.data.len() % 4 == 0
    } else if text::str_eq(out.dtype.as_str(), "bfloat16") {
        fits && out.data.len() % 2 == 0
    } else {
        true
    }
}

/// Token ids as the tensor that enters the first stage: one row of 64-bit integers.
pub open spec fn ids_tensor(ids: Seq<i64>) -> crate::tensor::TensorView {
    crate::tensor::TensorView {
        shape: seq![1i64, ids.len() as i64],
        dtype: "int64"@,
        data: crate::tensor::shape_bytes(ids),
    }
}

/// Token ids as the tensor that enters the first stage.
pub fn ids_to_tensor(ids: &[i64]) -> (t: Tensor)
    ensures
        t@ == ids_tensor(ids@),
{
    let mut data: Vec<u8> = Vec::new();
    let mut i: usize = 0;
    assert(data@ =~= crate::tensor::shape_bytes(ids@.take(0)));
    while i < ids.len()
        invariant
            i <= ids@.len(),
            data@ == crate::tensor::shape_bytes(ids@.take(i as int)),
        decreases ids@.len() - i,
    {
        wire::push_i64(&mut data, ids[i]);
        assert(ids@.take(i + 1).drop_last() =~= ids@.take(i as int));
        i += 1;
    }
    assert(ids@.take(i as int) =~= ids@);
    let shape: Vec<i64> = vec![1i64, ids.len() as i64];
    assert(shape@ =~= seq![1i64, ids@.len() as i64]);
    Tensor { shape, dtype: "int64".to_string(), data }
}

// ---------------------------------------------------------------------------
// Laws
// ---------------------------------------------------------------------------

/// A tensor is a short list of candidates, best first: their tokens one behind the
/// other, and behind these their scores.
pub open spec fn lists_candidates(
    t: crate::tensor::TensorView,
    tokens: Seq<i64>,
    scores: Seq<u32>,
) -> bool {
    let k = tokens.len() as int;
    &&& t.dtype == "topk_i64_f32"@
    &&& t.shape.len() > 0
    &&& 0 < k == t.shape[0] as usize
    &&& scores.len() == k
    &&& t.data.len() >= 12 * k
    &&& forall|i: int|
        0 <= i < k ==> t.data.subrange(8 * i, 8 * i + 8) == wire::le(
            wire::two_complement(#[trigger] tokens[i]),
            8,
        )
    &&& forall|i: int|
        0 <= i < k ==> t.data.subrange(8 * k + 4 * i, 8 * k + 4 * i + 4) == wire::le(
            (#[trigger] scores[i]) as nat,
            4,
        )
    &&& forall|i: int, j: int|
        0 <= i <= j < k ==> order_key(#[trigger] scores[i]) >= order_key(#[trigger] scores[j])
}

/// Of a short list the token that stands first is taken, however long the list is.
/// No candidate has a greater score than it.
pub proof fn the_best_candidate_is_taken(
    t: crate::tensor::TensorView,
    tokens: Seq<i64>,
    scores: Seq<u32>,
)
    requires
        lists_candidates(t, tokens, scores),
    ensures
        chosen_token(t) == Ok::<int, LogitsError>(tokens[0] as int),
        forall|i: int|
            0 <= i < scores.len() ==> order_key(#[trigger] scores[i]) <= order_key(scores[0]),
{
    let u = wire::two_complement(tokens[0]);
    wire::bounds();
    wire::le_reads_back(u, 8);
    let first = tokens[0];
    assert(t.data.subrange(0, 8) == wire::le(u, 8));
}

/// A token is taken from a short list exactly where it says that it holds one and has
/// the twelve bytes of each; it is never mistaken for rows of scores.
pub proof fn a_short_list_is_whole_or_refused(t: crate::tensor::TensorView)
    requires
        t.dtype == "topk_i64_f32"@,
    ensures
        chosen_token(t) is Ok <==> t.shape.len() > 0 && t.shape[0] as usize > 0 && t.data.len()
            >= 12 * (t.shape[0] as usize),
        chosen_token(t) is Err ==> chosen_token(t) == Err::<int, LogitsError>(
            LogitsError::MalformedTopK,
        ),
{
}

/// A tensor holds rows of scores: `score` gives the bits of each by its row and its
/// place, widened to 32 bits.
pub open spec fn holds_scores(
    t: crate::tensor::TensorView,
    rows: int,
    vocab: int,
    score: spec_fn(int, int) -> u32,
) -> bool {
    &&& t.shape.len() == 3
    &&& 0 < rows == t.shape[1] as usize
    &&& 0 < vocab == t.shape[2] as usize
    &&& (t.dtype == "float32"@ && t.data.len() == 4 * (rows * vocab) && forall|r: int, v: int|
        0 <= r < rows && 0 <= v < vocab ==> t.data.subrange(
            4 * (r * vocab + v),
            4 * (r * vocab + v) + 4,
        ) == wire::le((#[trigger] score(r, v)) as nat, 4)) || (t.dtype == "bfloat16"@
        && t.data.len() == 2 * (rows * vocab) && forall|r: int, v: int|
        0 <= r < rows && 0 <= v < vocab ==> (#[trigger] score(r, v)) % 0x1_0000 == 0
            && t.data.subrange(2 * (r * vocab + v), 2 * (r * vocab + v) + 2) == wire::le(
            (score(r, v) / 0x1_0000) as nat,
            2,
        ))
}

proof fn the_last_row_is_read(
    t: crate::tensor::TensorView,
    rows: int,
    vocab: int,
    score: spec_fn(int, int) -> u32,
    v: int,
)
    requires
        holds_scores(t, rows, vocab, score),
        0 <= v < vocab,
    ensures
        score_bits(t) is Some,
        score_bits(t).unwrap().len() == rows * vocab,
        score_bits(t).unwrap()[(rows - 1) * vocab + v] == score(rows - 1, v),
        0 <= (rows - 1) * vocab + v < rows * vocab,
{
    reveal_strlit("float32");
    reveal_strlit("bfloat16");
    assert((rows - 1) * vocab + vocab == rows * vocab) by (nonlinear_arith);
    assert((rows - 1) * vocab >= 0) by (nonlinear_arith)
        requires
            rows > 0,
            vocab > 0,
    ;
    assert("float32"@.len() == 7 && "bfloat16"@.len() == 8);
    wire::bounds();
    let s = score(rows - 1, v);
    if t.dtype == "float32"@ {
        wire::le_reads_back(s as nat, 4);
    } else {
        wire::le_reads_back((s / 0x1_0000) as nat, 2);
    }
}

/// From rows of scores the token is taken that has the greatest score in the last row,
/// and the first of these where several have it.
pub proof fn the_best_of_the_last_row_is_taken(
    t: crate::tensor::TensorView,
    rows: int,
    vocab: int,
    score: spec_fn(int, int) -> u32,
    p: int,
)
    requires
        holds_scores(t, rows, vocab, score),
        0 <= p < vocab,
        !is_nan(score(rows - 1, p)),
        order_key(score(rows - 1, p)) > -0x7f80_0000,
        forall|v: int|
            0 <= v < vocab && !is_nan(#[trigger] score(rows - 1, v)) ==> order_key(
                score(rows - 1, v),
            ) <= order_key(score(rows - 1, p)),
        forall|v: int|
            0 <= v < p && !is_nan(#[trigger] score(rows - 1, v)) ==> order_key(score(rows - 1, v))
                < order_key(score(rows - 1, p)),
    ensures
        chosen_token(t) == Ok::<int, LogitsError>(p),
{
    reveal_strlit("float32");
    reveal_strlit("bfloat16");
    reveal_strlit("topk_i64_f32");
    let bits = score_bits(t).unwrap();
    let row = bits.subrange((rows - 1) * vocab, rows * vocab);
    the_last_row_is_read(t, rows, vocab, score, p);
    assert((rows - 1) * vocab + vocab == rows * vocab) by (nonlinear_arith);
    assert forall|v: int| 0 <= v < vocab implies #[trigger] row[v] == score(rows - 1, v) by {
        the_last_row_is_read(t, rows, vocab, score, v);
    }
    the_greatest_is_the_first_of_the_greatest(row);
    let g = greatest(row).0;
    assert(row[p] == score(rows - 1, p));
    assert(row[g] == score(rows - 1, g));
    assert("float32"@.len() == 7 && "bfloat16"@.len() == 8 && "topk_i64_f32"@.len() == 12);
}

/// Scores are ordered as signed magnitudes: a bit pattern without the sign bit stands
/// above one with it, unless both are zero, and magnitudes count upward without it and
/// downward with it.
pub proof fn scores_are_signed_magnitudes(a: u32, b: u32)
    requires
        a < 0x8000_0000,
        b < 0x8000_0000,
    ensures
        a < b <==> order_key(a) < order_key(b),
        a < b <==> order_key((a + 0x8000_0000) as u32) > order_key((b + 0x8000_0000) as u32),
        a > 0 || b > 0 ==> order_key((a + 0x8000_0000) as u32) < order_key(b),
        order_key(0) == order_key(0x8000_0000),
        is_nan(a) <==> a > 0x7f80_0000,
        is_nan((a + 0x8000_0000) as u32) == is_nan(a),
{
}

/// Token ids enter the first stage as one row of 64-bit numbers, in their order.
pub proof fn ids_enter_in_order(ids: Seq<i64>, i: int)
    requires
        0 <= i < ids.len() <= i64::MAX,
    ensures
        ids_tensor(ids).shape.len() == 2,
        ids_tensor(ids).shape[0] == 1,
        ids_tensor(ids).shape[1] == ids.len(),
        ids_tensor(ids).dtype == "int64"@,
        ids_tensor(ids).data.len() == 8 * ids.len(),
        ids_tensor(ids).data.subrange(8 * i, 8 * i + 8) == wire::le(
            wire::two_complement(ids[i]),
            8,
        ),
{
    crate::tensor::shape_bytes_at(ids, i);
}

} // verus!
