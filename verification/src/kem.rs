//! The block-transposition cipher used for chat messages.
//!
//! A message of `n` bytes is laid out row by row in the smallest square block
//! that holds it (padding with zeros), read out column by column from the
//! bottom row up, and then combined with the key by XOR, the key repeating
//! as often as needed.
use vstd::prelude::*;
use vstd::arithmetic::div_mod::{lemma_fundamental_div_mod, lemma_fundamental_div_mod_converse};

verus! {

/// `b` is the side of the smallest square block with room for `n` bytes.
pub open spec fn is_block_side(n: nat, b: nat) -> bool {
    &&& b * b >= n
    &&& (b == 0 || (b - 1) * (b - 1) < n)
}

/// The side of the smallest square block with room for `n` bytes
/// (the ceiling of the square root of `n`).
pub open spec fn block_side(n: nat) -> nat
    decreases n,
{
    if n == 0 {
        0
    } else {
        let c = block_side((n - 1) as nat);
        if c * c >= n {
            c
        } else {
            c + 1
        }
    }
}

/// The block for `n` bytes has no more cells than a `usize` can count.
pub open spec fn block_fits(n: nat) -> bool {
    block_side(n) * block_side(n) <= usize::MAX
}

/// Byte `i` of `m` laid out in a block, zero past the end of `m`.
pub open spec fn padded_at(m: Seq<u8>, i: int) -> u8 {
    if 0 <= i < m.len() {
        m[i]
    } else {
        0
    }
}

/// `m` padded with zeros to fill a block of side `b`.
pub open spec fn pad(m: Seq<u8>, b: nat) -> Seq<u8> {
    Seq::new(b * b, |i: int| padded_at(m, i))
}

/// The block of side `b` holding `m` row by row, read column by column,
/// each column from the bottom row up.
pub open spec fn transpose(m: Seq<u8>, b: nat) -> Seq<u8> {
    Seq::new(b * b, |k: int| padded_at(m, (b - 1 - k % (b as int)) * b + k / (b as int)))
}

/// The inverse reading: `c` holds the columns of a block of side `b`, each
/// from the bottom row up; the result is the block row by row.
pub open spec fn untranspose(c: Seq<u8>, b: nat) -> Seq<u8> {
    Seq::new(b * b, |i: int| c[(i % (b as int)) * b + (b - 1 - i / (b as int))])
}

/// Each byte of `s` XORed with the key byte at the same position, the key
/// repeating.
pub open spec fn apply_key(s: Seq<u8>, key: Seq<u8>) -> Seq<u8> {
    Seq::new(s.len(), |i: int| s[i] ^ key[i % (key.len() as int)])
}

/// What `encrypt` returns.
pub open spec fn spec_encrypt(m: Seq<u8>, key: Seq<u8>) -> Seq<u8> {
    apply_key(transpose(m, block_side(m.len())), key)
}

/// What `decrypt` returns.
pub open spec fn spec_decrypt(c: Seq<u8>, key: Seq<u8>) -> Seq<u8> {
    untranspose(apply_key(c, key), block_side(c.len()))
}

/// `n` is the number of cells of some square block.
pub open spec fn is_square(n: nat) -> bool {
    block_side(n) * block_side(n) == n
}

proof fn lemma_block_side(n: nat)
    ensures
        is_block_side(n, block_side(n)),
    decreases n,
{
    if n > 0 {
        lemma_block_side((n - 1) as nat);
        let c = block_side((n - 1) as nat);
        if c * c < n {
            assert((c + 1) * (c + 1) >= n) by (nonlinear_arith)
                requires
                    c * c >= n - 1,
                    c * c < n,
            ;
        }
    }
}

proof fn lemma_block_side_unique(n: nat, b: nat)
    requires
        is_block_side(n, b),
    ensures
        b == block_side(n),
{
    lemma_block_side(n);
    let s = block_side(n);
    if b < s {
        assert((s - 1) * (s - 1) >= b * b) by (nonlinear_arith)
            requires
                b < s,
        ;
    } else if s < b {
        assert((b - 1) * (b - 1) >= s * s) by (nonlinear_arith)
            requires
                s < b,
        ;
    }
}

/// The smallest square block with room for `b * b` bytes has side `b`.
pub proof fn lemma_block_side_of_square(b: nat)
    ensures
        block_side(b * b) == b,
{
    if b > 0 {
        assert((b - 1) * (b - 1) < b * b) by (nonlinear_arith)
            requires
                b > 0,
        ;
    }
    lemma_block_side_unique(b * b, b);
}

/// A non-empty message needs a block with at least one cell.
pub proof fn lemma_block_side_positive(n: nat)
    requires
        n > 0,
    ensures
        block_side(n) * block_side(n) > 0,
{
    lemma_block_side(n);
    let b = block_side(n);
    assert(b * b > 0) by (nonlinear_arith)
        requires
            b * b >= n,
            n > 0,
    ;
}

/// Blocks for up to 0xFFFE_0001 bytes fit a `usize` on every platform.
pub proof fn lemma_block_fits(n: nat)
    requires
        n <= 0xFFFE_0001,
    ensures
        block_fits(n),
        block_side(n) <= 0xFFFF,
{
    lemma_block_side(n);
    let b = block_side(n);
    if b > 0xFFFF {
        assert((b - 1) * (b - 1) >= 0xFFFF * 0xFFFF) by (nonlinear_arith)
            requires
                b > 0xFFFF,
        ;
    }
    assert(b * b <= 0xFFFF * 0xFFFF) by (nonlinear_arith)
        requires
            b <= 0xFFFF,
    ;
}

/// Computes the side of the smallest square block with room for `n` bytes.
fn compute_block_side(n: usize) -> (b: usize)
    ensures
        b == block_side(n as nat),
        b <= n,
{
    let mut b: usize = 0;
    while (b as u128) * (b as u128) < n as u128
        invariant
            b <= n,
            b == 0 || (b - 1) * (b - 1) < n,
            b * b <= u128::MAX,
        decreases n - b,
    {
        assert(b * b < n);
        assert(b < n) by (nonlinear_arith)
            requires
                b * b < n,
        ;
        b = b + 1;
        assert(b * b <= u128::MAX) by (nonlinear_arith)
            requires
                b <= usize::MAX,
                usize::MAX < 0x1_0000_0000_0000_0000,
        ;
    }
    assert(b * b >= n);
    proof {
        lemma_block_side_unique(n as nat, b as nat);
    }
    b
}

/// Whether `n` bytes fill a square block exactly.
pub fn fills_block(n: usize) -> (r: bool)
    ensures
        r == is_square(n as nat),
{
    let b = compute_block_side(n);
    assert(b * b <= u128::MAX) by (nonlinear_arith)
        requires
            b <= usize::MAX,
            usize::MAX < 0x1_0000_0000_0000_0000,
    ;
    (b as u128) * (b as u128) == n as u128
}

proof fn lemma_index(b: int, row: int, col: int)
    requires
        0 <= row < b,
        0 <= col < b,
    ensures
        (col * b + row) / b == col,
        (col * b + row) % b == row,
        0 <= col * b + row < b * b,
{
    lemma_fundamental_div_mod_converse(col * b + row, b, col, row);
    assert(col * b + row < b * b) by (nonlinear_arith)
        requires
            0 <= row < b,
            0 <= col < b,
    ;
    assert(0 <= col * b) by (nonlinear_arith)
        requires
            0 <= col,
            0 <= b,
    ;
}

/// Encrypts `bytes` with `key`.
///
/// The result has as many bytes as the smallest square block with room for
/// `bytes`; an empty message gives an empty result.
pub fn encrypt(bytes: Vec<u8>, key: Vec<u8>) -> (encrypted: Vec<u8>)
    requires
        bytes.len() > 0 ==> key.len() > 0,
        block_fits(bytes.len() as nat),
    ensures
        encrypted@ == spec_encrypt(bytes@, key@),
        encrypted.len() == block_side(bytes.len() as nat) * block_side(bytes.len() as nat),
{
    let n = bytes.len();
    let b = compute_block_side(n);
    let mut columns: Vec<u8> = Vec::new();
    let mut col: usize = 0;
    while col < b
        invariant
            b == block_side(n as nat),
            n == bytes.len(),
            b * b <= usize::MAX,
            col <= b,
            columns.len() == col * b,
            forall|k: int|
                0 <= k < columns.len() ==> #[trigger] columns@[k] == transpose(bytes@, b as nat)[k],
        decreases b - col,
    {
        let mut row: usize = b;
        while row > 0
            invariant
                b == block_side(n as nat),
                n == bytes.len(),
                b * b <= usize::MAX,
                col < b,
                row <= b,
                columns.len() == col * b + (b - row),
                forall|k: int|
                    0 <= k < columns.len() ==> #[trigger] columns@[k] == transpose(
                        bytes@,
                        b as nat,
                    )[k],
            decreases row,
        {
            row = row - 1;
            proof {
                lemma_index(b as int, col as int, row as int);
                lemma_index(b as int, (b - 1 - row) as int, col as int);
            }
            let idx = row * b + col;
            let v = if idx < n {
                bytes[idx]
            } else {
                0u8
            };
            let ghost k = columns.len() as int;
            assert(k == col * b + (b - 1 - row));
            columns.push(v);
            assert(columns@[k] == transpose(bytes@, b as nat)[k]);
        }
        assert(columns.len() == (col + 1) * b) by (nonlinear_arith)
            requires
                columns.len() == col * b + b,
        ;
        col = col + 1;
    }
    assert(columns@ =~= transpose(bytes@, b as nat));
    xor_with_key(&columns, &key)
}

/// XORs each byte of `s` with the key byte at the same position, the key
/// repeating.
fn xor_with_key(s: &Vec<u8>, key: &Vec<u8>) -> (r: Vec<u8>)
    requires
        s.len() > 0 ==> key.len() > 0,
    ensures
        r@ == apply_key(s@, key@),
{
    let keylen = key.len();
    let mut r: Vec<u8> = Vec::new();
    let mut i: usize = 0;
    while i < s.len()
        invariant
            keylen == key.len(),
            s.len() > 0 ==> keylen > 0,
            i <= s.len(),
            r.len() == i,
            forall|k: int| 0 <= k < i ==> #[trigger] r@[k] == apply_key(s@, key@)[k],
        decreases s.len() - i,
    {
        r.push(s[i] ^ key[i % keylen]);
        i = i + 1;
    }
    assert(r@ =~= apply_key(s@, key@));
    r
}

/// Decrypts `bytes` with `key`.
///
/// The ciphertext must fill a square block, as every output of `encrypt`
/// does; the result has as many bytes as the ciphertext.
pub fn decrypt(bytes: Vec<u8>, key: Vec<u8>) -> (decrypted: Vec<u8>)
    requires
        bytes.len() > 0 ==> key.len() > 0,
        is_square(bytes.len() as nat),
    ensures
        decrypted@ == spec_decrypt(bytes@, key@),
        decrypted.len() == bytes.len(),
{
    let n = bytes.len();
    let b = compute_block_side(n);
    let x = xor_with_key(&bytes, &key);
    let mut rows: Vec<u8> = Vec::new();
    let mut row: usize = 0;
    while row < b
        invariant
            b == block_side(n as nat),
            n == bytes.len(),
            x.len() == n,
            b * b == n,
            row <= b,
            rows.len() == row * b,
            forall|k: int|
                0 <= k < rows.len() ==> #[trigger] rows@[k] == untranspose(x@, b as nat)[k],
        decreases b - row,
    {
        let mut col: usize = 0;
        while col < b
            invariant
                b == block_side(n as nat),
                n == bytes.len(),
                x.len() == n,
                b * b == n,
                row < b,
                col <= b,
                rows.len() == row * b + col,
                forall|k: int|
                    0 <= k < rows.len() ==> #[trigger] rows@[k] == untranspose(x@, b as nat)[k],
            decreases b - col,
        {
            proof {
                lemma_index(b as int, col as int, row as int);
                lemma_index(b as int, (b - 1 - row) as int, col as int);
            }
            let ghost k = rows.len() as int;
            rows.push(x[col * b + (b - 1 - row)]);
            assert(rows@[k] == untranspose(x@, b as nat)[k]);
            col = col + 1;
        }
        assert(rows.len() == (row + 1) * b) by (nonlinear_arith)
            requires
                rows.len() == row * b + b,
        ;
        row = row + 1;
    }
    assert(rows@ =~= untranspose(x@, b as nat));
    rows
}

proof fn lemma_xor_twice(a: u8, k: u8)
    ensures
        (a ^ k) ^ k == a,
{
    assert((a ^ k) ^ k == a) by (bit_vector);
}

proof fn lemma_apply_key_twice(s: Seq<u8>, key: Seq<u8>)
    requires
        s.len() > 0 ==> key.len() > 0,
    ensures
        apply_key(apply_key(s, key), key) == s,
{
    assert forall|i: int| 0 <= i < s.len() implies #[trigger] apply_key(apply_key(s, key), key)[i]
        == s[i] by {
        lemma_xor_twice(s[i], key[i % (key.len() as int)]);
    }
    assert(apply_key(apply_key(s, key), key) =~= s);
}

proof fn lemma_split_index(b: int, i: int)
    requires
        0 <= b,
        0 <= i < b * b,
    ensures
        0 <= i / b < b,
        0 <= i % b < b,
        (i / b) * b + i % b == i,
{
    assert(b > 0) by (nonlinear_arith)
        requires
            0 <= b,
            0 <= i < b * b,
    ;
    lemma_fundamental_div_mod(i, b);
    assert(i / b < b) by (nonlinear_arith)
        requires
            i == b * (i / b) + i % b,
            0 <= i % b,
            i < b * b,
            b > 0,
    ;
    assert(i / b >= 0) by (nonlinear_arith)
        requires
            i == b * (i / b) + i % b,
            i % b < b,
            i >= 0,
            b > 0,
    ;
    assert((i / b) * b == b * (i / b)) by (nonlinear_arith);
}

/// Decrypting what `encrypt` made with the same key gives the message back,
/// padded with zeros to fill its block; a message that fills its block
/// exactly comes back unchanged.
pub proof fn lemma_decrypt_encrypt(m: Seq<u8>, key: Seq<u8>)
    requires
        m.len() > 0 ==> key.len() > 0,
    ensures
        is_square(spec_encrypt(m, key).len()),
        spec_decrypt(spec_encrypt(m, key), key) == pad(m, block_side(m.len())),
        is_square(m.len()) ==> spec_decrypt(spec_encrypt(m, key), key) == m,
{
    let b = block_side(m.len());
    let bi = b as int;
    let t = transpose(m, b);
    let e = spec_encrypt(m, key);
    lemma_block_side_of_square(b);
    lemma_block_side(m.len());
    if t.len() > 0 {
        assert(m.len() > 0) by (nonlinear_arith)
            requires
                b == 0 || (b - 1) * (b - 1) < m.len(),
                b * b > 0,
        ;
    }
    lemma_apply_key_twice(t, key);
    let d = spec_decrypt(e, key);
    assert(apply_key(e, key) == t);
    assert forall|i: int| 0 <= i < bi * bi implies #[trigger] d[i] == padded_at(m, i) by {
        lemma_split_index(bi, i);
        let r = i / bi;
        let c = i % bi;
        lemma_index(bi, bi - 1 - r, c);
        lemma_fundamental_div_mod_converse(c * bi + (bi - 1 - r), bi, c, bi - 1 - r);
    }
    assert(d =~= pad(m, b));
    if is_square(m.len()) {
        assert(pad(m, b) =~= m);
    }
}

/// Encrypting what `decrypt` made with the same key gives the ciphertext
/// back.
pub proof fn lemma_encrypt_decrypt(c: Seq<u8>, key: Seq<u8>)
    requires
        c.len() > 0 ==> key.len() > 0,
        is_square(c.len()),
    ensures
        spec_encrypt(spec_decrypt(c, key), key) == c,
{
    let b = block_side(c.len());
    let bi = b as int;
    let x = apply_key(c, key);
    let d = spec_decrypt(c, key);
    lemma_block_side_of_square(b);
    let t = transpose(d, b);
    assert forall|k: int| 0 <= k < bi * bi implies #[trigger] t[k] == x[k] by {
        lemma_split_index(bi, k);
        let col = k / bi;
        let row = bi - 1 - k % bi;
        lemma_index(bi, col, row);
    }
    assert(t =~= x);
    lemma_apply_key_twice(c, key);
}

} // verus!
