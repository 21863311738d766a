//! Byte-vector helpers used by the protocol and the key exchange.
use vstd::prelude::*;
use rand::Rng;

verus! {

#[verifier::external_type_specification]
#[verifier::external_body]
pub struct ExThreadRng(rand::rngs::ThreadRng);

/// `rand::thread_rng`: a handle to the generator of this thread, seeded
/// from the operating system on first use. Nothing is claimed of it. It
/// panics only where the operating system's generator cannot be read, which
/// depends on the machine and on no argument.
#[verifier::external_body]
fn thread_rng() -> rand::rngs::ThreadRng {
    rand::thread_rng()
}

/// `Rng::gen_range(0..=255)` on the thread generator: a random byte. The
/// range is not empty, so the call does not panic; any byte may come back.
#[verifier::external_body]
fn random_byte(rng: &mut rand::rngs::ThreadRng) -> u8 {
    rng.gen_range(0..=255u8)
}

/// `String::push`: appends `c` to the end of `s`, as std documents.
#[verifier::external_body]
pub(crate) fn push_char(s: &mut String, c: char)
    ensures
        final(s)@ == old(s)@.push(c),
{
    s.push(c)
}

/// Whether two strings hold the same characters.
pub(crate) fn same_text(a: &str, b: &str) -> (r: bool)
    ensures
        r == (a@ == b@),
{
    let n = a.unicode_len();
    if n != b.unicode_len() {
        return false;
    }
    let mut i: usize = 0;
    while i < n
        invariant
            n == a@.len(),
            n == b@.len(),
            i <= n,
            forall|k: int| 0 <= k < i ==> a@[k] == b@[k],
        decreases n - i,
    {
        if a.get_char(i) != b.get_char(i) {
            return false;
        }
        i = i + 1;
    }
    assert(a@ =~= b@);
    true
}

/// The bitwise AND of two byte sequences, position by position, as long as
/// the shorter one.
pub open spec fn and_seq(a: Seq<u8>, b: Seq<u8>) -> Seq<u8> {
    Seq::new(
        if a.len() <= b.len() {
            a.len()
        } else {
            b.len()
        },
        |i: int| a[i] & b[i],
    )
}

/// ANDs two byte vectors position by position; the result is as long as
/// the shorter one.
pub fn and_vector(vec1: Vec<u8>, vec2: Vec<u8>) -> (r: Vec<u8>)
    ensures
        r@ == and_seq(vec1@, vec2@),
{
    let len = if vec1.len() <= vec2.len() {
        vec1.len()
    } else {
        vec2.len()
    };
    let mut r: Vec<u8> = Vec::new();
    let mut i: usize = 0;
    while i < len
        invariant
            len <= vec1.len(),
            len <= vec2.len(),
            len == and_seq(vec1@, vec2@).len(),
            i <= len,
            r.len() == i,
            forall|k: int| 0 <= k < i ==> #[trigger] r@[k] == vec1@[k] & vec2@[k],
        decreases len - i,
    {
        r.push(vec1[i] & vec2[i]);
        i = i + 1;
    }
    assert(r@ =~= and_seq(vec1@, vec2@));
    r
}

/// A vector of `size` random bytes.
pub fn rand_byte_vector(size: usize) -> (vector: Vec<u8>)
    requires
        size > 0,
    ensures
        vector.len() == size,
{
    let mut vector: Vec<u8> = Vec::with_capacity(size);
    let mut rng = thread_rng();
    let mut i: usize = 0;
    while i < size
        invariant
            i <= size,
            vector.len() == i,
        decreases size - i,
    {
        vector.push(random_byte(&mut rng));
        i = i + 1;
    }
    vector
}

/// The low byte of each character of `s`.
pub open spec fn low_bytes(s: Seq<char>) -> Seq<u8> {
    s.map_values(|c: char| c as u8)
}

/// Each byte read as the character with that code point.
pub open spec fn byte_chars(b: Seq<u8>) -> Seq<char> {
    b.map_values(|x: u8| x as char)
}

/// The low byte of each character of `string`, in order.
pub fn bytes_from_string(string: &str) -> (bytes: Vec<u8>)
    ensures
        bytes@ == low_bytes(string@),
{
    broadcast use vstd::string::group_string_axioms;

    let mut bytes: Vec<u8> = Vec::new();
    let ghost total = string@;
    for c in it: string.chars()
        invariant
            it.seq() == total,
            bytes@ == low_bytes(total.take(it.index() as int)),
    {
        bytes.push(c as u8);
        assert(total.take(it.index() as int + 1) =~= total.take(it.index() as int).push(c));
    }
    assert(total.take(total.len() as int) =~= total);
    bytes
}

/// Each byte of `bytes` as the character with that code point.
pub fn bytes_to_string(bytes: Vec<u8>) -> (string: String)
    ensures
        string@ == byte_chars(bytes@),
{
    let mut string = String::new();
    let mut i: usize = 0;
    while i < bytes.len()
        invariant
            i <= bytes.len(),
            string@ == byte_chars(bytes@.take(i as int)),
        decreases bytes.len() - i,
    {
        push_char(&mut string, bytes[i] as char);
        assert(bytes@.take(i as int + 1) =~= bytes@.take(i as int).push(bytes@[i as int]));
        i = i + 1;
    }
    assert(bytes@.take(bytes.len() as int) =~= bytes@);
    string
}

/// `bytes` without its zero bytes, the others in order.
pub fn remove_null(bytes: Vec<u8>) -> (r: Vec<u8>)
    ensures
        r@ == bytes@.filter(|b: u8| b != 0),
{
    let mut r: Vec<u8> = Vec::new();
    let mut i: usize = 0;
    while i < bytes.len()
        invariant
            i <= bytes.len(),
            r@ == bytes@.take(i as int).filter(|b: u8| b != 0),
        decreases bytes.len() - i,
    {
        reveal_with_fuel(Seq::<_>::filter, 1);
        assert(bytes@.take(i as int + 1).drop_last() =~= bytes@.take(i as int));
        if bytes[i] != 0 {
            r.push(bytes[i]);
        }
        i = i + 1;
    }
    assert(bytes@.take(bytes.len() as int) =~= bytes@);
    r
}

/// Removes bytes from the front of `vec` up to and including the first
/// `term`, looking no further than the last byte, and returns those before
/// `term`. Where no `term` stands before the last byte, every byte but the
/// last is removed and returned.
pub fn erase_until_terminator(vec: &mut Vec<u8>, term: u8) -> (erased: Vec<u8>)
    requires
        old(vec).len() > 0,
    ensures
        erased.len() < old(vec).len(),
        erased@ == old(vec)@.take(erased.len() as int),
        forall|i: int| 0 <= i < erased.len() ==> old(vec)@[i] != term,
        erased.len() < old(vec).len() - 1 ==> old(vec)@[erased.len() as int] == term
            && final(vec)@ == old(vec)@.skip(erased.len() + 1),
        erased.len() == old(vec).len() - 1 ==> final(vec)@ == old(vec)@.skip(erased.len() as int),
{
    let ghost s = vec@;
    let mut erased: Vec<u8> = Vec::new();
    let len = vec.len() - 1;
    let mut n: usize = 0;
    while n < len
        invariant
            s == old(vec)@,
            len == s.len() - 1,
            n <= len,
            erased.len() == n,
            erased@ == s.take(n as int),
            vec@ == s.skip(n as int),
            forall|i: int| 0 <= i < n ==> s[i] != term,
        decreases len - n,
    {
        let obj = vec.remove(0);
        if obj == term {
            assert(vec@ =~= s.skip(n + 1));
            return erased;
        }
        erased.push(obj);
        n = n + 1;
        assert(erased@ =~= s.take(n as int));
        assert(vec@ =~= s.skip(n as int));
    }
    erased
}

/// Removes bytes from the back of `vec` down to and including the last
/// `term`, and returns those after it, last byte first.
pub fn truncate_until_terminator(vec: &mut Vec<u8>, term: u8) -> (erased: Vec<u8>)
    requires
        old(vec)@.contains(term),
    ensures
        final(vec).len() < old(vec).len(),
        old(vec)@[final(vec).len() as int] == term,
        final(vec)@ == old(vec)@.take(final(vec).len() as int),
        forall|i: int| final(vec).len() < i < old(vec).len() ==> old(vec)@[i] != term,
        erased@ == old(vec)@.skip(final(vec).len() + 1).reverse(),
{
    let ghost s = vec@;
    let ghost j = choose|j: int| 0 <= j < s.len() && s[j] == term;
    let mut erased: Vec<u8> = Vec::new();
    let mut i: usize = vec.len() - 1;
    loop
        invariant
            s == old(vec)@,
            0 <= j < s.len(),
            s[j] == term,
            j <= i < s.len(),
            vec@ == s.take(i + 1),
            forall|k: int| i < k < s.len() ==> s[k] != term,
            erased@ == s.skip(i + 1).reverse(),
        decreases i,
    {
        let obj = vec.remove(i);
        assert(vec@ =~= s.take(i as int));
        if obj == term {
            return erased;
        }
        erased.push(obj);
        assert(erased@ =~= s.skip(i as int).reverse());
        i = i - 1;
    }
}

} // verus!
