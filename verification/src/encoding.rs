//! Little endian numbers in byte strings, and the errors of the `ssz` crate.
use crate::types::Hash256;
use vstd::prelude::*;

verus! {

/// Why the `ssz` crate could not decode some bytes.
#[verifier::external_type_specification]
#[verifier::external_body]
pub struct ExDecodeError(ssz::DecodeError);

/// The number whose little endian bytes are `bytes`.
pub open spec fn le_value(bytes: Seq<u8>) -> nat
    decreases bytes.len(),
{
    if bytes.len() == 0 {
        0
    } else {
        bytes[0] as nat + 256 * le_value(bytes.drop_first())
    }
}

/// The number that the `width` bytes from `at` on hold, little endian.
pub open spec fn le_at(bytes: Seq<u8>, at: int, width: int) -> nat {
    le_value(bytes.subrange(at, at + width))
}

/// Whether the 32 bytes from `at` on are those of `root`.
pub open spec fn root_at(bytes: Seq<u8>, at: int, root: Hash256) -> bool {
    le_at(bytes, at, 16) == root.lo && le_at(bytes, at + 16, 16) == root.hi
}

/// Byte strings of one length that hold the same number are equal.
pub proof fn lemma_le_value_injective(a: Seq<u8>, b: Seq<u8>)
    requires
        a.len() == b.len(),
        le_value(a) == le_value(b),
    ensures
        a == b,
    decreases a.len(),
{
    if a.len() > 0 {
        assert(a[0] == b[0] && le_value(a.drop_first()) == le_value(
            b.drop_first(),
        ));
        lemma_le_value_injective(a.drop_first(), b.drop_first());
        assert(a =~= seq![a[0]] + a.drop_first());
        assert(b =~= seq![b[0]] + b.drop_first());
    }
    assert(a =~= b);
}

/// Where two byte strings hold the same number, they hold the same bytes.
pub proof fn lemma_same_bytes(a: Seq<u8>, b: Seq<u8>, at: int, width: int, k: int)
    requires
        le_at(a, at, width) == le_at(b, at, width),
        0 <= at <= k < at + width,
        at + width <= a.len(),
        at + width <= b.len(),
    ensures
        a[k] == b[k],
{
    lemma_le_value_injective(a.subrange(at, at + width), b.subrange(at, at + width));
    assert(a.subrange(at, at + width)[k - at] == b.subrange(at, at + width)[k - at]);
}

/// Where two byte strings hold the same root, they hold the same bytes.
pub proof fn lemma_same_root_bytes(a: Seq<u8>, b: Seq<u8>, at: int, root: Hash256, k: int)
    requires
        root_at(a, at, root),
        root_at(b, at, root),
        0 <= at <= k < at + 32,
        at + 32 <= a.len(),
        at + 32 <= b.len(),
    ensures
        a[k] == b[k],
{
    if k < at + 16 {
        lemma_same_bytes(a, b, at, 16, k);
    } else {
        lemma_same_bytes(a, b, at + 16, 16, k);
    }
}

/// The 32 bytes of `root`.
pub open spec fn root_seq(root: Hash256) -> Seq<u8> {
    choose|b: Seq<u8>| b.len() == 32 && root_at(b, 0, root)
}

spec fn weight(n: nat) -> nat
    decreases n,
{
    if n == 0 {
        1
    } else {
        256 * weight((n - 1) as nat)
    }
}

proof fn lemma_le_value_push(bytes: Seq<u8>, b: u8)
    ensures
        le_value(bytes.push(b)) == le_value(bytes) + weight(bytes.len()) * b,
    decreases bytes.len(),
{
    if bytes.len() == 0 {
        assert(bytes.push(b).drop_first() =~= Seq::<u8>::empty());
        assert(le_value(Seq::<u8>::empty()) == 0);
        assert(weight(0) == 1);
        assert(bytes.push(b)[0] == b);
    } else {
        let rest = bytes.drop_first();
        lemma_le_value_push(rest, b);
        assert(bytes.push(b).drop_first() =~= rest.push(b));
        assert(weight(bytes.len()) == 256 * weight(rest.len()));
        assert(256 * (weight(rest.len()) * b) == (256 * weight(rest.len())) * b) by (nonlinear_arith);
    }
}

/// Appends the sixteen little endian bytes of `n`.
fn append_u128(r: &mut Vec<u8>, n: u128)
    ensures
        final(r)@.len() == old(r)@.len() + 16,
        final(r)@.take(old(r)@.len() as int) == old(r)@,
        le_at(final(r)@, old(r)@.len() as int, 16) == n,
{
    let ghost start = r@;
    let ghost added = Seq::<u8>::empty();
    let mut rest: u128 = n;
    let mut i: usize = 0;
    proof {
        reveal_with_fuel(weight, 17);
        assert(start + added =~= start);
        assert(weight(0) * rest == rest) by (nonlinear_arith)
            requires
                weight(0) == 1,
        ;
    }
    while i < 16
        invariant
            i <= 16,
            added.len() == i,
            r@ == start + added,
            n == le_value(added) + weight(i as nat) * rest,
            rest < weight((16 - i) as nat),
        decreases 16 - i,
    {
        let b: u8 = (rest % 256) as u8;
        r.push(b);
        proof {
            lemma_le_value_push(added, b);
            let w = weight(i as nat);
            assert(rest == 256 * (rest / 256) + rest % 256);
            assert(w * rest == w * b + (256 * w) * (rest / 256)) by (nonlinear_arith)
                requires
                    rest == 256 * (rest / 256) + b,
            ;
            assert(weight((i + 1) as nat) == 256 * w);
            assert(weight((16 - i) as nat) == 256 * weight((15 - i) as nat));
            added = added.push(b);
            assert(r@ =~= start + added);
        }
        rest = rest / 256;
        i += 1;
    }
    proof {
        assert(weight(0) == 1);
        assert(weight(i as nat) * rest == 0) by (nonlinear_arith)
            requires
                rest == 0,
        ;
        assert(r@.subrange(start.len() as int, start.len() as int + 16) =~= added);
        assert(r@.take(start.len() as int) =~= start);
    }
}

/// The 32 bytes of `root`.
pub fn root_bytes(root: &Hash256) -> (r: Vec<u8>)
    ensures
        r@.len() == 32,
        root_at(r@, 0, *root),
        r@ == root_seq(*root),
{
    let mut r: Vec<u8> = Vec::new();
    append_u128(&mut r, root.lo);
    let ghost first = r@;
    append_u128(&mut r, root.hi);
    proof {
        assert(r@.subrange(0, 16) =~= first.subrange(0, 16)) by {
            assert(r@.take(16) == first);
        }
        let b = root_seq(*root);
        assert(r@.len() == 32 && root_at(r@, 0, *root));
        assert(b.len() == 32 && root_at(b, 0, *root));
        assert forall|k: int| 0 <= k < 32 implies r@[k] == b[k] by {
            lemma_same_root_bytes(r@, b, 0, *root, k);
        }
        assert(r@ =~= b);
    }
    r
}

proof fn lemma_weight_grows(m: nat, n: nat)
    requires
        m <= n,
    ensures
        weight(m) <= weight(n),
    decreases n,
{
    if m < n {
        lemma_weight_grows(m, (n - 1) as nat);
    }
}

/// The number that the sixteen bytes from `at` on hold, little endian.
fn read_u128(bytes: &[u8], at: usize) -> (r: u128)
    requires
        at + 16 <= bytes@.len(),
    ensures
        r == le_at(bytes@, at as int, 16),
{
    let n: usize = bytes.len();
    let mut r: u128 = 0;
    let mut i: usize = 16;
    assert(bytes@.subrange(at + 16, at + 16) =~= Seq::empty());
    while i > 0
        invariant
            i <= 16,
            at + 16 <= n,
            n == bytes@.len(),
            r == le_value(bytes@.subrange(at + i, at + 16)),
            r < weight((16 - i) as nat),
        decreases i,
    {
        proof {
            let rest = bytes@.subrange(at + i, at + 16);
            let more = bytes@.subrange(at + i - 1, at + 16);
            assert(more.drop_first() =~= rest);
            assert(more[0] == bytes@[at + i - 1]);
            lemma_weight_grows((17 - i) as nat, 16);
            reveal_with_fuel(weight, 17);
            assert(weight((17 - i) as nat) == 256 * weight((16 - i) as nat));
        }
        i -= 1;
        r = r * 256 + bytes[at + i] as u128;
    }
    r
}

/// The root whose 32 bytes these are; none where there are more bytes or fewer.
pub fn root_from_bytes(bytes: &[u8]) -> (r: Option<Hash256>)
    ensures
        bytes@.len() == 32 ==> (r matches Some(root) && root_at(bytes@, 0, root)),
        bytes@.len() != 32 ==> r is None,
{
    if bytes.len() == 32 {
        Some(Hash256 { lo: read_u128(bytes, 0), hi: read_u128(bytes, 16) })
    } else {
        None
    }
}

/// The bytes of a root are read back as that root and no other.
pub proof fn law_root_is_read_back(root: Hash256, other: Hash256)
    ensures
        root_at(root_seq(root), 0, other) <==> other == root,
{
    let bytes = root_seq(root);
    lemma_root_has_bytes(root);
    assert(bytes.len() == 32 && root_at(bytes, 0, root));
}

proof fn lemma_number_has_bytes(n: nat, width: nat) -> (bytes: Seq<u8>)
    requires
        n < weight(width),
    ensures
        bytes.len() == width,
        le_value(bytes) == n,
    decreases width,
{
    if width == 0 {
        Seq::empty()
    } else {
        let rest = lemma_number_has_bytes(n / 256, (width - 1) as nat);
        let bytes = seq![(n % 256) as u8] + rest;
        assert(bytes.drop_first() =~= rest);
        bytes
    }
}

/// Every root has 32 bytes that hold it.
proof fn lemma_root_has_bytes(root: Hash256)
    ensures
        exists|b: Seq<u8>| b.len() == 32 && root_at(b, 0, root),
{
    reveal_with_fuel(weight, 17);
    let lo = lemma_number_has_bytes(root.lo as nat, 16);
    let hi = lemma_number_has_bytes(root.hi as nat, 16);
    let bytes = lo + hi;
    assert(bytes.subrange(0, 16) =~= lo);
    assert(bytes.subrange(16, 32) =~= hi);
    assert(bytes.len() == 32 && root_at(bytes, 0, root));
}

} // verus!
