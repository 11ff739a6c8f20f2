//! Big-endian integers: what the bytes of a number are, and reading them back.
use vstd::prelude::*;

verus! {

/// The `n` low-order bytes of `x`, most significant first.
pub open spec fn be_bytes(x: nat, n: nat) -> Seq<u8>
    decreases n,
{
    if n == 0 {
        Seq::empty()
    } else {
        be_bytes(x / 256, (n - 1) as nat).push((x % 256) as u8)
    }
}

/// The number that a byte string stands for, most significant byte first.
pub open spec fn be_value(s: Seq<u8>) -> nat
    decreases s.len(),
{
    if s.len() == 0 {
        0
    } else {
        be_value(s.drop_last()) * 256 + s.last() as nat
    }
}

/// One more than the largest number that `n` bytes can hold.
pub open spec fn byte_limit(n: nat) -> nat
    decreases n,
{
    if n == 0 {
        1
    } else {
        byte_limit((n - 1) as nat) * 256
    }
}

pub proof fn lemma_be_bytes_len(x: nat, n: nat)
    ensures
        be_bytes(x, n).len() == n,
    decreases n,
{
    if n > 0 {
        lemma_be_bytes_len(x / 256, (n - 1) as nat);
    }
}

/// Writing a number that fits into `n` bytes and reading the bytes gives the number back.
pub proof fn lemma_be_value_of_bytes(x: nat, n: nat)
    requires
        x < byte_limit(n),
    ensures
        be_value(be_bytes(x, n)) == x,
    decreases n,
{
    lemma_be_bytes_len(x, n);
    if n > 0 {
        lemma_be_value_of_bytes(x / 256, (n - 1) as nat);
        assert(be_bytes(x, n).drop_last() =~= be_bytes(x / 256, (n - 1) as nat));
    }
}

/// A byte string is the big-endian form of the number it stands for.
pub proof fn lemma_be_bytes_of_value(s: Seq<u8>)
    ensures
        be_bytes(be_value(s), s.len()) == s,
    decreases s.len(),
{
    if s.len() > 0 {
        lemma_be_bytes_of_value(s.drop_last());
        assert(be_value(s) / 256 == be_value(s.drop_last()));
        assert(be_value(s) % 256 == s.last() as nat);
        assert(s =~= s.drop_last().push(s.last()));
    } else {
        assert(be_bytes(be_value(s), s.len()) =~= s);
    }
}

pub proof fn lemma_be_value_bound(s: Seq<u8>)
    ensures
        be_value(s) < byte_limit(s.len()),
    decreases s.len(),
{
    if s.len() > 0 {
        lemma_be_value_bound(s.drop_last());
    }
}

pub proof fn lemma_byte_limits()
    ensures
        byte_limit(2) == 0x1_0000,
        byte_limit(4) == 0x1_0000_0000,
        byte_limit(16) == 0x1_0000_0000_0000_0000_0000_0000_0000_0000nat,
{
    reveal_with_fuel(byte_limit, 17);
}

/// The bytes of a two-byte number.
pub proof fn lemma_be_bytes_2(x: nat)
    ensures
        be_bytes(x, 2) == seq![((x / 256) % 256) as u8, (x % 256) as u8],
{
    reveal_with_fuel(be_bytes, 3);
    assert(be_bytes(x, 2) =~= seq![((x / 256) % 256) as u8, (x % 256) as u8]);
}

/// The bytes of a four-byte number.
pub proof fn lemma_be_bytes_4(x: nat)
    ensures
        be_bytes(x, 4) == seq![
            ((x / 0x100_0000) % 256) as u8,
            ((x / 0x1_0000) % 256) as u8,
            ((x / 256) % 256) as u8,
            (x % 256) as u8,
        ],
{
    reveal_with_fuel(be_bytes, 5);
    assert(be_bytes(x, 4) =~= seq![
        ((x / 0x100_0000) % 256) as u8,
        ((x / 0x1_0000) % 256) as u8,
        ((x / 256) % 256) as u8,
        (x % 256) as u8,
    ]);
}

/// Appends the `n` low-order bytes of `x`, most significant first.
pub fn push_be(buf: &mut Vec<u8>, x: u128, n: usize)
    requires
        n <= 16,
    ensures
        final(buf)@ == old(buf)@ + be_bytes(x as nat, n as nat),
{
    let mut bytes: Vec<u8> = Vec::new();
    let mut k: usize = 0;
    while k < n
        invariant
            k <= n,
            bytes@ == Seq::<u8>::new(k as nat, |i: int| 0u8),
        decreases n - k,
    {
        bytes.push(0u8);
        k = k + 1;
        assert(bytes@ =~= Seq::<u8>::new(k as nat, |i: int| 0u8));
    }
    let mut rest: u128 = x;
    let mut i: usize = n;
    proof {
        lemma_be_bytes_len(x as nat, n as nat);
        assert(be_bytes(x as nat, n as nat) =~= be_bytes(rest as nat, i as nat)
            + bytes@.subrange(i as int, n as int));
    }
    while i > 0
        invariant
            i <= n,
            bytes@.len() == n,
            be_bytes(x as nat, n as nat) == be_bytes(rest as nat, i as nat) + bytes@.subrange(
                i as int,
                n as int,
            ),
        decreases i,
    {
        let ghost before = bytes@;
        i = i - 1;
        bytes.set(i, (rest % 256) as u8);
        proof {
            lemma_be_bytes_len(rest as nat, (i + 1) as nat);
            assert(be_bytes(rest as nat, (i + 1) as nat) + before.subrange(i + 1, n as int)
                =~= be_bytes((rest / 256) as nat, i as nat) + bytes@.subrange(i as int, n as int));
        }
        rest = rest / 256;
    }
    proof {
        assert(bytes@ =~= be_bytes(x as nat, n as nat));
    }
    buf.append(&mut bytes);
}

/// Reads the big-endian number in `data[from..from + n]`.
pub fn read_be(data: &[u8], from: usize, n: usize) -> (x: u128)
    requires
        n <= 16,
        from + n <= data@.len(),
    ensures
        x == be_value(data@.subrange(from as int, from + n)),
        x < byte_limit(n as nat),
{
    let len: usize = data.len();
    let mut x: u128 = 0;
    let mut i: usize = 0;
    assert(data@.subrange(from as int, from as int) =~= Seq::<u8>::empty());
    while i < n
        invariant
            i <= n <= 16,
            from + n <= len == data@.len(),
            x == be_value(data@.subrange(from as int, from + i)),
        decreases n - i,
    {
        proof {
            let s = data@.subrange(from as int, from + i + 1);
            assert(s.drop_last() =~= data@.subrange(from as int, from + i));
            lemma_be_value_bound(s);
            lemma_byte_limit_monotone(s.len(), 16);
            lemma_byte_limits();
        }
        x = x * 256 + data[from + i] as u128;
        i = i + 1;
    }
    proof {
        lemma_be_value_bound(data@.subrange(from as int, from + n));
    }
    x
}

proof fn lemma_byte_limit_monotone(m: nat, n: nat)
    requires
        m <= n,
    ensures
        byte_limit(m) <= byte_limit(n),
    decreases n - m,
{
    if m < n {
        lemma_byte_limit_monotone(m, (n - 1) as nat);
    }
}

/// Appends every element of `src`.
pub fn extend_from<T: Copy>(buf: &mut Vec<T>, src: &[T])
    ensures
        final(buf)@ == old(buf)@ + src@,
{
    let ghost before = buf@;
    let mut i: usize = 0;
    assert(before + src@.subrange(0, 0) =~= before);
    while i < src.len()
        invariant
            i <= src@.len(),
            buf@ == before + src@.subrange(0, i as int),
        decreases src@.len() - i,
    {
        buf.push(src[i]);
        i = i + 1;
        assert(buf@ =~= before + src@.subrange(0, i as int));
    }
    assert(src@.subrange(0, i as int) =~= src@);
}

/// A fresh vector with the elements of `src`.
pub fn copy_of<T: Copy>(src: &[T]) -> (out: Vec<T>)
    ensures
        out@ == src@,
{
    let mut out: Vec<T> = Vec::new();
    extend_from(&mut out, src);
    assert(out@ =~= src@);
    out
}

/// The eight bytes from `from` on.
pub fn array_8(data: &[u8], from: usize) -> (out: [u8; 8])
    requires
        from + 8 <= data@.len(),
    ensures
        out@ == data@.subrange(from as int, from + 8),
{
    let len: usize = data.len();
    let mut out: [u8; 8] = [0u8; 8];
    let mut i: usize = 0;
    while i < 8
        invariant
            i <= 8,
            from + 8 <= len == data@.len(),
            forall|j: int| 0 <= j < i ==> out@[j] == data@[from + j],
        decreases 8 - i,
    {
        out[i] = data[from + i];
        i = i + 1;
    }
    assert(out@ =~= data@.subrange(from as int, from + 8));
    out
}

/// The thirty-two bytes from `from` on.
pub fn array_32(data: &[u8], from: usize) -> (out: [u8; 32])
    requires
        from + 32 <= data@.len(),
    ensures
        out@ == data@.subrange(from as int, from + 32),
{
    let len: usize = data.len();
    let mut out: [u8; 32] = [0u8; 32];
    let mut i: usize = 0;
    while i < 32
        invariant
            i <= 32,
            from + 32 <= len == data@.len(),
            forall|j: int| 0 <= j < i ==> out@[j] == data@[from + j],
        decreases 32 - i,
    {
        out[i] = data[from + i];
        i = i + 1;
    }
    assert(out@ =~= data@.subrange(from as int, from + 32));
    out
}

} // verus!
