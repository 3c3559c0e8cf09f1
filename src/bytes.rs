//! Machine words as byte sequences, in either byte order.

use vstd::prelude::*;

verus! {

/// The order in which the bytes of a machine word are laid out.
#[derive(Clone, Copy, Debug, PartialEq, Eq, Structural)]
pub enum ByteOrder {
    Little,
    Big,
}

/// `256` to the power `n`: one more than the largest value that `n` bytes hold.
pub open spec fn byte_bound(n: nat) -> nat
    decreases n,
{
    if n == 0 {
        1
    } else {
        256 * byte_bound((n - 1) as nat)
    }
}

/// The `n` low-order bytes of `x`, least significant first.
pub open spec fn le_bytes(x: nat, n: nat) -> Seq<u8>
    decreases n,
{
    if n == 0 {
        Seq::empty()
    } else {
        seq![(x % 256) as u8] + le_bytes(x / 256, (n - 1) as nat)
    }
}

/// The value of bytes read least significant first.
pub open spec fn le_value(b: Seq<u8>) -> nat
    decreases b.len(),
{
    if b.len() == 0 {
        0
    } else {
        b[0] as nat + 256 * le_value(b.drop_first())
    }
}

/// The `n` low-order bytes of `x` in the given order.
pub open spec fn word_bytes(x: nat, n: nat, order: ByteOrder) -> Seq<u8> {
    match order {
        ByteOrder::Little => le_bytes(x, n),
        ByteOrder::Big => le_bytes(x, n).reverse(),
    }
}

/// The value of bytes laid out in the given order.
pub open spec fn word_value(b: Seq<u8>, order: ByteOrder) -> nat {
    match order {
        ByteOrder::Little => le_value(b),
        ByteOrder::Big => le_value(b.reverse()),
    }
}

pub proof fn lemma_byte_bound_grows(m: nat, n: nat)
    requires
        m <= n,
    ensures
        1 <= byte_bound(m) <= byte_bound(n),
    decreases n,
{
    if n > m {
        lemma_byte_bound_grows(m, (n - 1) as nat);
    } else if n > 0 {
        lemma_byte_bound_grows(0, (n - 1) as nat);
    }
}

pub proof fn lemma_byte_bound_word()
    ensures
        byte_bound(8) == 0x1_0000_0000_0000_0000,
{
    reveal_with_fuel(byte_bound, 9);
}

/// Bytes never hold more than their width allows.
pub proof fn lemma_le_value_bound(b: Seq<u8>)
    ensures
        le_value(b) < byte_bound(b.len()),
    decreases b.len(),
{
    if b.len() > 0 {
        lemma_le_value_bound(b.drop_first());
        let r = le_value(b.drop_first());
        let k = byte_bound((b.len() - 1) as nat);
        assert(b[0] as nat + 256 * r < 256 * k) by (nonlinear_arith)
            requires
                r < k,
                b[0] < 256,
        ;
    }
}

pub proof fn lemma_le_bytes_len(x: nat, n: nat)
    ensures
        le_bytes(x, n).len() == n,
    decreases n,
{
    if n > 0 {
        lemma_le_bytes_len(x / 256, (n - 1) as nat);
    }
}

/// Reading back the bytes of a value that fits gives the value.
pub proof fn lemma_le_round_trip(x: nat, n: nat)
    requires
        x < byte_bound(n),
    ensures
        le_value(le_bytes(x, n)) == x,
        le_bytes(x, n).len() == n,
    decreases n,
{
    lemma_le_bytes_len(x, n);
    if n > 0 {
        let k = byte_bound((n - 1) as nat);
        assert(x / 256 < k) by (nonlinear_arith)
            requires
                x < 256 * k,
        ;
        lemma_le_round_trip(x / 256, (n - 1) as nat);
        let b = le_bytes(x, n);
        assert(b.drop_first() =~= le_bytes(x / 256, (n - 1) as nat));
        assert(x % 256 + 256 * (x / 256) == x) by (nonlinear_arith);
    }
}

/// Reading back the bytes of a value that fits, in either order, gives the value.
pub proof fn lemma_word_round_trip(x: nat, n: nat, order: ByteOrder)
    requires
        x < byte_bound(n),
    ensures
        word_value(word_bytes(x, n, order), order) == x,
        word_bytes(x, n, order).len() == n,
{
    lemma_le_round_trip(x, n);
    let b = le_bytes(x, n);
    assert(b.reverse().reverse() =~= b);
}

/// Appends the `n` low-order bytes of `x` to `out` in the given order.
pub fn push_word(out: &mut Vec<u8>, x: u64, n: usize, order: ByteOrder)
    ensures
        final(out)@ == old(out)@ + word_bytes(x as nat, n as nat, order),
{
    let ghost start = out@;
    let mut low: Vec<u8> = Vec::new();
    let mut rest: u64 = x;
    let mut i: usize = 0;
    while i < n
        invariant
            i <= n,
            le_bytes(x as nat, n as nat) == low@ + le_bytes(rest as nat, (n - i) as nat),
        decreases n - i,
    {
        proof {
            let tail = le_bytes((rest / 256) as nat, (n - i - 1) as nat);
            assert(le_bytes(rest as nat, (n - i) as nat) == seq![(rest % 256) as u8] + tail);
            assert(low@ + (seq![(rest % 256) as u8] + tail) =~= low@.push((rest % 256) as u8)
                + tail);
        }
        low.push((rest % 256) as u8);
        rest = rest / 256;
        i = i + 1;
    }
    proof {
        lemma_le_bytes_len(x as nat, n as nat);
    }
    assert(low@ =~= le_bytes(x as nat, n as nat));
    match order {
        ByteOrder::Little => {
            let mut j: usize = 0;
            while j < n
                invariant
                    j <= n,
                    low@.len() == n,
                    out@ =~= start + low@.subrange(0, j as int),
                decreases n - j,
            {
                assert(low@.subrange(0, j + 1) =~= low@.subrange(0, j as int).push(low@[j as int]));
                out.push(low[j]);
                j = j + 1;
            }
            assert(low@.subrange(0, n as int) =~= low@);
        },
        ByteOrder::Big => {
            let mut j: usize = n;
            while j > 0
                invariant
                    j <= n,
                    low@.len() == n,
                    out@ =~= start + low@.reverse().subrange(0, (n - j) as int),
                decreases j,
            {
                assert(low@.reverse().subrange(0, (n - j + 1) as int) =~= low@.reverse().subrange(
                    0,
                    (n - j) as int,
                ).push(low@[j - 1]));
                out.push(low[j - 1]);
                j = j - 1;
            }
            assert(low@.reverse().subrange(0, n as int) =~= low@.reverse());
        },
    }
}

/// Reads the word held in `b[start..start + n]` in the given order.
pub fn read_word(b: &[u8], start: usize, n: usize, order: ByteOrder) -> (r: u64)
    requires
        n <= 8,
        start + n <= b@.len(),
    ensures
        r as nat == word_value(b@.subrange(start as int, start + n), order),
{
    let ghost w = b@.subrange(start as int, start + n);
    let len = b.len();
    proof {
        lemma_byte_bound_word();
    }
    let mut acc: u64 = 0;
    match order {
        ByteOrder::Little => {
            let mut i: usize = n;
            while i > 0
                invariant
                    i <= n <= 8,
                    start + n <= b@.len() == len,
                    w == b@.subrange(start as int, start + n),
                    byte_bound(8) == 0x1_0000_0000_0000_0000,
                    acc as nat == le_value(w.subrange(i as int, n as int)),
                decreases i,
            {
                let ghost done = w.subrange(i as int, n as int);
                let ghost next = w.subrange(i - 1, n as int);
                proof {
                    assert(next.drop_first() =~= done);
                    lemma_le_value_bound(done);
                    lemma_byte_bound_grows((done.len() + 1) as nat, 8);
                    assert(acc * 256 + 255 < 256 * byte_bound(done.len())) by (nonlinear_arith)
                        requires
                            acc < byte_bound(done.len()),
                    ;
                }
                acc = acc * 256 + b[start + i - 1] as u64;
                i = i - 1;
            }
            assert(w.subrange(0, n as int) =~= w);
        },
        ByteOrder::Big => {
            let mut i: usize = 0;
            while i < n
                invariant
                    i <= n <= 8,
                    start + n <= b@.len() == len,
                    w == b@.subrange(start as int, start + n),
                    byte_bound(8) == 0x1_0000_0000_0000_0000,
                    acc as nat == le_value(w.subrange(0, i as int).reverse()),
                decreases n - i,
            {
                let ghost done = w.subrange(0, i as int).reverse();
                let ghost next = w.subrange(0, i + 1).reverse();
                proof {
                    assert(next.drop_first() =~= done);
                    assert(next[0] == w[i as int]);
                    lemma_le_value_bound(done);
                    lemma_byte_bound_grows((done.len() + 1) as nat, 8);
                    assert(acc * 256 + 255 < 256 * byte_bound(done.len())) by (nonlinear_arith)
                        requires
                            acc < byte_bound(done.len()),
                    ;
                }
                acc = acc * 256 + b[start + i] as u64;
                i = i + 1;
            }
            assert(w.subrange(0, n as int) =~= w);
        },
    }
    acc
}

} // verus!
