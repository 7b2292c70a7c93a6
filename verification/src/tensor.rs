//! Tensors, and the bytes in which they travel between nodes.

use vstd::prelude::*;
use vstd::utf8::*;

use crate::text;
use crate::wire;

verus! {

/// Numbers laid out in memory: how many along each dimension, of which type,
/// and their bytes.
#[derive(Debug)]
pub struct Tensor {
    pub shape: Vec<i64>,
    pub dtype: String,
    pub data: Vec<u8>,
}

/// What a [`Tensor`] holds.
#[verifier::ext_equal]
pub struct TensorView {
    pub shape: Seq<i64>,
    pub dtype: Seq<char>,
    pub data: Seq<u8>,
}

impl View for Tensor {
    type V = TensorView;

    open spec fn view(&self) -> TensorView {
        TensorView { shape: self.shape@, dtype: self.dtype@, data: self.data@ }
    }
}

impl Clone for Tensor {
    fn clone(&self) -> (r: Self)
        ensures
            r@ == self@,
    {
        let shape: Vec<i64> = self.shape.clone();
        assert(shape@ =~= self.shape@);
        Tensor { shape, dtype: self.dtype.clone(), data: text::copy_bytes(&self.data) }
    }
}

/// Why bytes are no tensor.
#[derive(Debug, Clone, Copy, PartialEq, Eq, Structural)]
pub enum CodecError {
    /// A count in the bytes reaches past their end.
    Truncated,
    /// The name of the type is not UTF-8.
    NotUtf8,
}

impl CodecError {
    /// What is wrong, in words.
    pub open spec fn text(self) -> Seq<char> {
        match self {
            CodecError::Truncated => "tensor bytes are cut short"@,
            CodecError::NotUtf8 => "tensor dtype is not utf-8"@,
        }
    }

    /// What is wrong, in words.
    pub fn message(&self) -> (s: String)
        ensures
            s@ == self.text(),
    {
        match self {
            CodecError::Truncated => "tensor bytes are cut short".to_string(),
            CodecError::NotUtf8 => "tensor dtype is not utf-8".to_string(),
        }
    }
}

// ---------------------------------------------------------------------------
// One tensor
// ---------------------------------------------------------------------------

/// The bytes of dimensions, eight each.
pub open spec fn shape_bytes(shape: Seq<i64>) -> Seq<u8>
    decreases shape.len(),
{
    if shape.len() == 0 {
        Seq::empty()
    } else {
        shape_bytes(shape.drop_last()) + wire::le(wire::two_complement(shape.last()), 8)
    }
}

/// The bytes of a tensor: the number of dimensions and the dimensions, the
/// length of the type's name and the name, and the data.
pub open spec fn tensor_bytes(t: TensorView) -> Seq<u8> {
    wire::le(t.shape.len(), 4) + shape_bytes(t.shape) + wire::le(encode_utf8(t.dtype).len(), 4)
        + encode_utf8(t.dtype) + t.data
}

/// The number in the four bytes from `at` on.
pub open spec fn u32_at(b: Seq<u8>, at: int) -> nat {
    wire::le_value(b.subrange(at, at + 4))
}

/// The dimensions in bytes that begin with their number.
pub open spec fn shape_at(b: Seq<u8>, n: nat) -> Seq<i64> {
    Seq::new(
        n,
        |i: int| wire::signed(wire::le_value(b.subrange(4 + 8 * i, 12 + 8 * i))) as i64,
    )
}

/// The tensor that bytes hold.
pub open spec fn read_tensor(b: Seq<u8>) -> Result<TensorView, CodecError> {
    let n = u32_at(b, 0);
    let name = 8 + 8 * n;
    let len = u32_at(b, name - 4);
    if b.len() < 4 || b.len() < name || b.len() < name + len {
        Err(CodecError::Truncated)
    } else if !valid_utf8(b.subrange(name as int, (name + len) as int)) {
        Err(CodecError::NotUtf8)
    } else {
        Ok(
            TensorView {
                shape: shape_at(b, n),
                dtype: decode_utf8(b.subrange(name as int, (name + len) as int)),
                data: b.skip((name + len) as int),
            },
        )
    }
}

/// The bytes of a tensor.
pub fn tensor_to_bytes(t: &Tensor) -> (buf: Vec<u8>)
    ensures
        buf@ == tensor_bytes(t@),
{
    let mut buf: Vec<u8> = Vec::new();
    wire::push_low_4(&mut buf, t.shape.len() as u64);
    let mut i: usize = 0;
    assert(buf@ =~= wire::le(t.shape@.len(), 4) + shape_bytes(t.shape@.take(0)));
    while i < t.shape.len()
        invariant
            i <= t.shape@.len(),
            buf@ == wire::le(t.shape@.len(), 4) + shape_bytes(t.shape@.take(i as int)),
        decreases t.shape@.len() - i,
    {
        wire::push_i64(&mut buf, t.shape[i]);
        proof {
            let s = t.shape@.take(i + 1);
            assert(s.drop_last() =~= t.shape@.take(i as int));
            assert(buf@ =~= wire::le(t.shape@.len(), 4) + shape_bytes(s));
        }
        i += 1;
    }
    assert(t.shape@.take(i as int) =~= t.shape@);
    let name: &[u8] = t.dtype.as_str().as_bytes();
    wire::push_low_4(&mut buf, name.len() as u64);
    text::append_bytes(&mut buf, name);
    text::append_bytes(&mut buf, &t.data);
    buf
}

/// The tensor that bytes hold, or why they hold none.
pub fn tensor_from_bytes(b: &[u8]) -> (r: Result<Tensor, CodecError>)
    ensures
        match r {
            Ok(t) => read_tensor(b@) == Ok::<TensorView, CodecError>(t@),
            Err(e) => read_tensor(b@) == Err::<TensorView, CodecError>(e),
        },
{
    if b.len() < 4 {
        return Err(CodecError::Truncated);
    }
    let n: u32 = wire::read_u32(b, 0);
    let name_at: u64 = 8 + 8 * (n as u64);
    if (b.len() as u64) < name_at {
        return Err(CodecError::Truncated);
    }
    let name: usize = name_at as usize;
    let len: u32 = wire::read_u32(b, name - 4);
    if (b.len() as u64) < name_at + len as u64 {
        return Err(CodecError::Truncated);
    }
    let mut shape: Vec<i64> = Vec::new();
    let mut i: usize = 0;
    while i < n as usize
        invariant
            i <= n,
            8 + 8 * n <= b@.len(),
            b@.len() == b.len(),
            shape@ == shape_at(b@, i as nat),
        decreases n - i,
    {
        let d: i64 = wire::read_i64(b, 4 + 8 * i);
        shape.push(d);
        i += 1;
        assert(shape@ =~= shape_at(b@, i as nat));
    }
    let end: usize = name + len as usize;
    match wire::text_of(text::slice_bytes(b, name, end).as_slice()) {
        Some(dtype) => {
            let data: Vec<u8> = text::slice_bytes(b, end, b.len());
            assert(data@ =~= b@.skip(end as int));
            Ok(Tensor { shape, dtype, data })
        },
        None => Err(CodecError::NotUtf8),
    }
}

/// The tensor that whole bytes hold. It fails exactly where the name of the
/// type is not UTF-8.
pub fn bytes_to_tensor(b: &[u8]) -> (r: Result<Tensor, CodecError>)
    requires
        read_tensor(b@) != Err::<TensorView, CodecError>(CodecError::Truncated),
    ensures
        match r {
            Ok(t) => read_tensor(b@) == Ok::<TensorView, CodecError>(t@),
            Err(e) => read_tensor(b@) == Err::<TensorView, CodecError>(e) && e
                == CodecError::NotUtf8,
        },
{
    tensor_from_bytes(b)
}

/// The bytes of a tensor.
pub fn tensor_to_bytes_pub(t: &Tensor) -> (buf: Vec<u8>)
    ensures
        buf@ == tensor_bytes(t@),
{
    tensor_to_bytes(t)
}

/// The tensor that whole bytes hold.
pub fn bytes_to_tensor_pub(b: &[u8]) -> (r: Result<Tensor, CodecError>)
    requires
        read_tensor(b@) != Err::<TensorView, CodecError>(CodecError::Truncated),
    ensures
        match r {
            Ok(t) => read_tensor(b@) == Ok::<TensorView, CodecError>(t@),
            Err(e) => read_tensor(b@) == Err::<TensorView, CodecError>(e) && e
                == CodecError::NotUtf8,
        },
{
    bytes_to_tensor(b)
}

/// Whether the counts of a tensor fit in the four bytes that they are given.
pub open spec fn writable(t: TensorView) -> bool {
    t.shape.len() < 0x1_0000_0000 && encode_utf8(t.dtype).len() < 0x1_0000_0000
}

/// Each dimension stands at its place, in eight bytes.
pub proof fn shape_bytes_at(shape: Seq<i64>, i: int)
    ensures
        shape_bytes(shape).len() == 8 * shape.len(),
        0 <= i < shape.len() ==> shape_bytes(shape).subrange(8 * i, 8 * i + 8) == wire::le(
            wire::two_complement(shape[i]),
            8,
        ),
    decreases shape.len(),
{
    if shape.len() > 0 {
        let init = shape.drop_last();
        shape_bytes_at(init, i);
        wire::le_len(wire::two_complement(shape.last()), 8);
        if 0 <= i < init.len() {
            assert(shape_bytes(shape).subrange(8 * i, 8 * i + 8) =~= shape_bytes(init).subrange(
                8 * i,
                8 * i + 8,
            ));
        } else if i == init.len() {
            assert(shape_bytes(shape).subrange(8 * i, 8 * i + 8) =~= wire::le(
                wire::two_complement(shape[i]),
                8,
            ));
        }
    }
}

/// A tensor that was written as bytes reads back as it was.
pub proof fn a_written_tensor_reads_back(t: TensorView)
    requires
        writable(t),
    ensures
        read_tensor(tensor_bytes(t)) == Ok::<TensorView, CodecError>(t),
{
    let b = tensor_bytes(t);
    let n = t.shape.len();
    let enc = encode_utf8(t.dtype);
    let name = 8 + 8 * n;
    wire::bounds();
    wire::le_reads_back(n, 4);
    wire::le_reads_back(enc.len(), 4);
    shape_bytes_at(t.shape, 0);
    assert(b.subrange(0, 4) =~= wire::le(n, 4));
    assert(b.subrange(name - 4, name as int) =~= wire::le(enc.len(), 4));
    assert(b.subrange(name as int, (name + enc.len()) as int) =~= enc);
    encode_utf8_valid_utf8(t.dtype);
    encode_utf8_decode_utf8(t.dtype);
    assert(b.skip((name + enc.len()) as int) =~= t.data);
    assert(shape_at(b, n) =~= t.shape) by {
        assert forall|i: int| 0 <= i < n implies shape_at(b, n)[i] == t.shape[i] by {
            shape_bytes_at(t.shape, i);
            assert(b.subrange(4 + 8 * i, 12 + 8 * i) =~= shape_bytes(t.shape).subrange(
                8 * i,
                8 * i + 8,
            ));
            wire::le_reads_back(wire::two_complement(t.shape[i]), 8);
        }
    }
}

// ---------------------------------------------------------------------------
// Numbered tensors
// ---------------------------------------------------------------------------

/// What a list of numbered tensors holds.
pub open spec fn argument_views(v: Seq<(u32, Tensor)>) -> Seq<(u32, TensorView)> {
    Seq::new(v.len(), |i: int| (v[i].0, v[i].1@))
}

/// The bytes of one numbered tensor: its number, its length, and itself.
pub open spec fn entry_bytes(a: (u32, TensorView)) -> Seq<u8> {
    wire::le(a.0 as nat, 4) + wire::le(tensor_bytes(a.1).len(), 8) + tensor_bytes(a.1)
}

/// The bytes of numbered tensors, one behind the other.
pub open spec fn entries_bytes(args: Seq<(u32, TensorView)>) -> Seq<u8>
    decreases args.len(),
{
    if args.len() == 0 {
        Seq::empty()
    } else {
        entries_bytes(args.drop_last()) + entry_bytes(args.last())
    }
}

/// The bytes of a list of numbered tensors: how many, and each of them.
pub open spec fn arguments_bytes(args: Seq<(u32, TensorView)>) -> Seq<u8> {
    wire::le(args.len(), 4) + entries_bytes(args)
}

/// The `count` numbered tensors in the bytes from `off` on.
pub open spec fn read_entries(b: Seq<u8>, off: nat, count: nat) -> Result<
    Seq<(u32, TensorView)>,
    CodecError,
>
    decreases count,
{
    let len = wire::le_value(b.subrange((off + 4) as int, (off + 12) as int));
    if count == 0 {
        Ok(Seq::empty())
    } else if off + 12 > b.len() || off + 12 + len > b.len() {
        Err(CodecError::Truncated)
    } else {
        match read_tensor(b.subrange((off + 12) as int, (off + 12 + len) as int)) {
            Err(e) => Err(e),
            Ok(t) => match read_entries(b, off + 12 + len, (count - 1) as nat) {
                Err(e) => Err(e),
                Ok(rest) => Ok(seq![(u32_at(b, off as int) as u32, t)] + rest),
            },
        }
    }
}

/// The numbered tensors that bytes hold; no bytes hold none.
pub open spec fn read_arguments(b: Seq<u8>) -> Result<Seq<(u32, TensorView)>, CodecError> {
    if b.len() == 0 {
        Ok(Seq::empty())
    } else if b.len() < 4 {
        Err(CodecError::Truncated)
    } else {
        read_entries(b, 4, u32_at(b, 0))
    }
}

/// The bytes of a list of numbered tensors.
pub fn arguments_to_bytes(arguments: &[(u32, Tensor)]) -> (buf: Vec<u8>)
    ensures
        buf@ == arguments_bytes(argument_views(arguments@)),
{
    let mut buf: Vec<u8> = Vec::new();
    wire::push_low_4(&mut buf, arguments.len() as u64);
    let ghost args = argument_views(arguments@);
    let mut i: usize = 0;
    assert(buf@ =~= wire::le(args.len(), 4) + entries_bytes(args.take(0)));
    while i < arguments.len()
        invariant
            i <= arguments@.len(),
            args == argument_views(arguments@),
            buf@ == wire::le(args.len(), 4) + entries_bytes(args.take(i as int)),
        decreases arguments@.len() - i,
    {
        wire::push_u32(&mut buf, arguments[i].0);
        let body: Vec<u8> = tensor_to_bytes(&arguments[i].1);
        wire::push_u64(&mut buf, body.len() as u64);
        text::append_bytes(&mut buf, &body);
        proof {
            let s = args.take(i + 1);
            assert(s.drop_last() =~= args.take(i as int));
            assert(buf@ =~= wire::le(args.len(), 4) + entries_bytes(s));
        }
        i += 1;
    }
    assert(args.take(i as int) =~= args);
    buf
}

/// The numbered tensors that bytes hold, or why they hold none.
pub fn arguments_from_bytes(bytes: &[u8]) -> (r: Result<Vec<(u32, Tensor)>, CodecError>)
    ensures
        match r {
            Ok(v) => read_arguments(bytes@) == Ok::<Seq<(u32, TensorView)>, CodecError>(
                argument_views(v@),
            ),
            Err(e) => read_arguments(bytes@) == Err::<Seq<(u32, TensorView)>, CodecError>(e),
        },
{
    let mut out: Vec<(u32, Tensor)> = Vec::new();
    assert(argument_views(out@) =~= Seq::<(u32, TensorView)>::empty());
    if bytes.len() == 0 {
        return Ok(out);
    }
    if bytes.len() < 4 {
        return Err(CodecError::Truncated);
    }
    let count: u32 = wire::read_u32(bytes, 0);
    let mut left: u32 = count;
    let mut off: usize = 4;
    proof {
        if let Ok(all) = read_entries(bytes@, 4, count as nat) {
            assert(argument_views(out@) + all =~= all);
        }
    }
    while left > 0
        invariant
            off <= bytes@.len(),
            bytes@.len() == bytes.len(),
            match read_entries(bytes@, off as nat, left as nat) {
                Ok(rest) => read_arguments(bytes@) == Ok::<Seq<(u32, TensorView)>, CodecError>(
                    argument_views(out@) + rest,
                ),
                Err(e) => read_arguments(bytes@) == Err::<Seq<(u32, TensorView)>, CodecError>(e),
            },
        decreases left,
    {
        if bytes.len() - off < 12 {
            return Err(CodecError::Truncated);
        }
        let index: u32 = wire::read_u32(bytes, off);
        let len: u64 = wire::read_u64(bytes, off + 4);
        assert(bytes@.subrange(off + 4, off + 12) =~= bytes@.subrange(off + 4, off + 4 + 8));
        if len > (bytes.len() - off - 12) as u64 {
            return Err(CodecError::Truncated);
        }
        let end: usize = off + 12 + len as usize;
        match tensor_from_bytes(text::slice_bytes(bytes, off + 12, end).as_slice()) {
            Ok(t) => {
                let ghost before = argument_views(out@);
                let ghost item = (index, t@);
                out.push((index, t));
                proof {
                    assert(argument_views(out@) =~= before.push(item));
                    if let Ok(rest) = read_entries(bytes@, end as nat, (left - 1) as nat) {
                        assert(before + (seq![item] + rest) =~= before.push(item) + rest);
                    }
                }
            },
            Err(e) => {
                return Err(e);
            },
        }
        off = end;
        left -= 1;
    }
    assert(argument_views(out@) + Seq::<(u32, TensorView)>::empty() =~= argument_views(out@));
    Ok(out)
}

/// The numbered tensors that whole bytes hold. It fails exactly where the name
/// of a type is not UTF-8.
pub fn bytes_to_arguments(bytes: &[u8]) -> (r: Result<Vec<(u32, Tensor)>, CodecError>)
    requires
        read_arguments(bytes@) != Err::<Seq<(u32, TensorView)>, CodecError>(CodecError::Truncated),
    ensures
        match r {
            Ok(v) => read_arguments(bytes@) == Ok::<Seq<(u32, TensorView)>, CodecError>(
                argument_views(v@),
            ),
            Err(e) => read_arguments(bytes@) == Err::<Seq<(u32, TensorView)>, CodecError>(e) && e
                == CodecError::NotUtf8,
        },
{
    arguments_from_bytes(bytes)
}

/// Whether every count of a list of numbered tensors fits in the bytes that it is given.
pub open spec fn all_writable(args: Seq<(u32, TensorView)>) -> bool {
    &&& args.len() < 0x1_0000_0000
    &&& forall|i: int|
        0 <= i < args.len() ==> writable((#[trigger] args[i]).1) && tensor_bytes(args[i].1).len()
            < 0x1_0000_0000_0000_0000
}

proof fn entries_from_the_front(args: Seq<(u32, TensorView)>)
    requires
        args.len() > 0,
    ensures
        entries_bytes(args) == entry_bytes(args[0]) + entries_bytes(args.skip(1)),
    decreases args.len(),
{
    if args.len() == 1 {
        assert(args.drop_last() =~= Seq::<(u32, TensorView)>::empty());
        assert(args.skip(1) =~= Seq::<(u32, TensorView)>::empty());
        assert(entries_bytes(args) =~= entry_bytes(args[0]) + entries_bytes(args.skip(1)));
    } else {
        let init = args.drop_last();
        entries_from_the_front(init);
        assert(args.skip(1).drop_last() =~= init.skip(1));
        assert(entries_bytes(args) =~= entry_bytes(args[0]) + entries_bytes(args.skip(1)));
    }
}

proof fn written_entries_read_back(prefix: Seq<u8>, args: Seq<(u32, TensorView)>)
    requires
        all_writable(args),
    ensures
        read_entries(prefix + entries_bytes(args), prefix.len(), args.len()) == Ok::<
            Seq<(u32, TensorView)>,
            CodecError,
        >(args),
    decreases args.len(),
{
    let b = prefix + entries_bytes(args);
    let off = prefix.len() as int;
    if args.len() == 0 {
        assert(args =~= Seq::<(u32, TensorView)>::empty());
    } else {
        let first = args[0];
        let body = tensor_bytes(first.1);
        let rest = args.skip(1);
        entries_from_the_front(args);
        wire::bounds();
        wire::le_reads_back(first.0 as nat, 4);
        wire::le_reads_back(body.len(), 8);
        assert(b =~= prefix + entry_bytes(first) + entries_bytes(rest));
        assert(b.subrange(off, off + 4) =~= wire::le(first.0 as nat, 4));
        assert(b.subrange(off + 4, off + 12) =~= wire::le(body.len(), 8));
        assert(b.subrange(off + 12, off + 12 + body.len()) =~= body);
        a_written_tensor_reads_back(first.1);
        assert forall|i: int| 0 <= i < rest.len() implies writable((#[trigger] rest[i]).1)
            && tensor_bytes(rest[i].1).len() < 0x1_0000_0000_0000_0000 by {
            assert(rest[i] == args[i + 1]);
        }
        written_entries_read_back(prefix + entry_bytes(first), rest);
        assert((prefix + entry_bytes(first)).len() == off + 12 + body.len());
        assert(seq![first] + rest =~= args);
    }
}

/// Numbered tensors that were written as bytes read back as they were.
pub proof fn written_arguments_read_back(args: Seq<(u32, TensorView)>)
    requires
        all_writable(args),
    ensures
        read_arguments(arguments_bytes(args)) == Ok::<Seq<(u32, TensorView)>, CodecError>(args),
{
    let b = arguments_bytes(args);
    wire::bounds();
    wire::le_reads_back(args.len(), 4);
    assert(b.subrange(0, 4) =~= wire::le(args.len(), 4));
    written_entries_read_back(wire::le(args.len(), 4), args);
}

/// How a tensor stands in its bytes: in front how many dimensions it has, then each of
/// them in eight bytes, then how long the name of its type is and the name, and the data
/// to the end.
pub proof fn a_tensor_is_laid_out(t: TensorView, i: int)
    requires
        writable(t),
        0 <= i < t.shape.len(),
    ensures
        ({
            let b = tensor_bytes(t);
            let name = (8 + 8 * t.shape.len()) as int;
            let data = name + encode_utf8(t.dtype).len();
            &&& wire::le_value(b.take(4)) == t.shape.len()
            &&& wire::signed(wire::le_value(b.subrange(4 + 8 * i, 12 + 8 * i))) == t.shape[i]
            &&& wire::le_value(b.subrange(name - 4, name)) == encode_utf8(t.dtype).len()
            &&& b.subrange(name, data) == encode_utf8(t.dtype)
            &&& b.skip(data) == t.data
        }),
{
    let b = tensor_bytes(t);
    let name = (8 + 8 * t.shape.len()) as int;
    let data = name + encode_utf8(t.dtype).len();
    let d = wire::two_complement(t.shape[i]);
    wire::bounds();
    wire::le_reads_back(t.shape.len(), 4);
    wire::le_reads_back(encode_utf8(t.dtype).len(), 4);
    wire::signs_are_kept(t.shape[i]);
    wire::le_reads_back(d, 8);
    shape_bytes_at(t.shape, i);
    assert(b.take(4) =~= wire::le(t.shape.len(), 4));
    assert(b.subrange(4 + 8 * i, 12 + 8 * i) =~= shape_bytes(t.shape).subrange(8 * i, 8 * i + 8));
    assert(b.subrange(name - 4, name) =~= wire::le(encode_utf8(t.dtype).len(), 4));
    assert(b.subrange(name, data) =~= encode_utf8(t.dtype));
    assert(b.skip(data) =~= t.data);
}

/// How numbered tensors stand in their bytes: in front how many there are, and behind what
/// was written of the first ones the number of the next in four bytes, its length in eight,
/// and itself.
pub proof fn numbered_tensors_are_laid_out(args: Seq<(u32, TensorView)>, i: int)
    requires
        all_writable(args),
        0 <= i < args.len(),
    ensures
        ({
            let b = arguments_bytes(args);
            let at = arguments_bytes(args.take(i)).len() as int;
            let len = tensor_bytes(args[i].1).len();
            &&& wire::le_value(b.take(4)) == args.len()
            &&& wire::le_value(b.subrange(at, at + 4)) == args[i].0
            &&& wire::le_value(b.subrange(at + 4, at + 12)) == len
            &&& b.subrange(at + 12, at + 12 + len) == tensor_bytes(args[i].1)
        }),
    decreases args.len(),
{
    let b = arguments_bytes(args);
    let init = args.drop_last();
    let last = args.last();
    wire::bounds();
    wire::le_reads_back(args.len(), 4);
    wire::le_len(init.len(), 4);
    wire::le_len(args.take(i).len(), 4);
    assert(b.take(4) =~= wire::le(args.len(), 4));
    let at = arguments_bytes(args.take(i)).len() as int;
    let len = tensor_bytes(args[i].1).len();
    if i < init.len() {
        assert(init[i] == args[i]);
        assert forall|k: int| 0 <= k < init.len() implies writable((#[trigger] init[k]).1)
            && tensor_bytes(init[k].1).len() < 0x1_0000_0000_0000_0000 by {
            assert(init[k] == args[k]);
        }
        numbered_tensors_are_laid_out(init, i);
        assert(init.take(i) =~= args.take(i));
        let c = arguments_bytes(init);
        entries_take(init, i);
        assert(b.subrange(at, at + 4) =~= c.subrange(at, at + 4));
        assert(b.subrange(at + 4, at + 12) =~= c.subrange(at + 4, at + 12));
        assert(b.subrange(at + 12, at + 12 + len) =~= c.subrange(at + 12, at + 12 + len));
    } else {
        assert(args.take(i) =~= init);
        wire::le_reads_back(last.0 as nat, 4);
        wire::le_reads_back(len, 8);
        let e = entry_bytes(last);
        assert(b.subrange(at, at + 4) =~= wire::le(last.0 as nat, 4));
        assert(b.subrange(at + 4, at + 12) =~= wire::le(len, 8));
        assert(b.subrange(at + 12, at + 12 + len) =~= tensor_bytes(last.1));
    }
}

proof fn entries_take(args: Seq<(u32, TensorView)>, i: int)
    requires
        0 <= i < args.len(),
    ensures
        entries_bytes(args.take(i)).len() + 12 + tensor_bytes(args[i].1).len() <= entries_bytes(
            args,
        ).len(),
    decreases args.len(),
{
    let init = args.drop_last();
    wire::le_len(args.last().0 as nat, 4);
    wire::le_len(tensor_bytes(args.last().1).len(), 8);
    if i < init.len() {
        entries_take(init, i);
        assert(init.take(i) =~= args.take(i));
    } else {
        assert(args.take(i) =~= init);
    }
}

} // verus!
