//! Byte strings: their order, their prefixes and their integers.
//!
//! Every key in a bank is a byte string, and the order of a bank is the order
//! of those strings: bytewise, a proper prefix before what it starts.

use vstd::prelude::*;

verus! {

/// `a` sorts before `b`, byte by byte; a proper prefix sorts first.
pub open spec fn before(a: Seq<u8>, b: Seq<u8>) -> bool
    decreases a.len(),
{
    if b.len() == 0 {
        false
    } else if a.len() == 0 {
        true
    } else if a[0] != b[0] {
        a[0] < b[0]
    } else {
        before(a.skip(1), b.skip(1))
    }
}

/// `s` begins with `prefix`.
pub open spec fn starts_with(s: Seq<u8>, prefix: Seq<u8>) -> bool {
    &&& prefix.len() <= s.len()
    &&& s.take(prefix.len() as int) == prefix
}

/// Every string sorts before every later one: ascending, nothing twice.
pub open spec fn ascending(keys: Seq<Seq<u8>>) -> bool {
    forall|i: int, j: int| 0 <= i < j < keys.len() ==> before(#[trigger] keys[i], #[trigger] keys[j])
}

/// No string sorts before itself.
pub proof fn before_is_irreflexive(a: Seq<u8>)
    ensures
        !before(a, a),
    decreases a.len(),
{
    if a.len() > 0 {
        before_is_irreflexive(a.skip(1));
    }
}

/// The order is transitive.
pub proof fn before_is_transitive(a: Seq<u8>, b: Seq<u8>, c: Seq<u8>)
    requires
        before(a, b),
        before(b, c),
    ensures
        before(a, c),
    decreases a.len(),
{
    if a.len() > 0 && a[0] == b[0] && b[0] == c[0] {
        before_is_transitive(a.skip(1), b.skip(1), c.skip(1));
    }
}

/// Two strings neither of which sorts first are the same string.
pub proof fn before_is_total(a: Seq<u8>, b: Seq<u8>)
    ensures
        before(a, b) || before(b, a) || a == b,
    decreases a.len(),
{
    if a.len() > 0 && b.len() > 0 {
        if a[0] == b[0] {
            before_is_total(a.skip(1), b.skip(1));
            if a.skip(1) == b.skip(1) {
                assert(a =~= seq![a[0]] + a.skip(1));
                assert(b =~= seq![b[0]] + b.skip(1));
            }
        }
    } else {
        assert(a.len() == 0 && b.len() == 0 ==> a =~= b);
    }
}

/// At most one of two strings sorts first.
pub proof fn before_is_asymmetric(a: Seq<u8>, b: Seq<u8>)
    requires
        before(a, b),
    ensures
        !before(b, a),
        a != b,
{
    if before(b, a) {
        before_is_transitive(a, b, a);
    }
    before_is_irreflexive(a);
}

/// A common prefix does not change which of two strings sorts first.
pub proof fn before_under_a_prefix(prefix: Seq<u8>, a: Seq<u8>, b: Seq<u8>)
    ensures
        before(prefix + a, prefix + b) == before(a, b),
    decreases prefix.len(),
{
    if prefix.len() == 0 {
        assert(prefix + a =~= a);
        assert(prefix + b =~= b);
    } else {
        before_under_a_prefix(prefix.skip(1), a, b);
        assert((prefix + a).skip(1) =~= prefix.skip(1) + a);
        assert((prefix + b).skip(1) =~= prefix.skip(1) + b);
    }
}

/// Strings of one length are ordered by their heads unless the heads agree.
pub proof fn before_by_head(head_a: Seq<u8>, a: Seq<u8>, head_b: Seq<u8>, b: Seq<u8>)
    requires
        head_a.len() == head_b.len(),
        head_a != head_b,
    ensures
        before(head_a + a, head_b + b) == before(head_a, head_b),
    decreases head_a.len(),
{
    if head_a.len() == 0 {
        assert(head_a =~= head_b);
    } else {
        assert((head_a + a).skip(1) =~= head_a.skip(1) + a);
        assert((head_b + b).skip(1) =~= head_b.skip(1) + b);
        if head_a[0] == head_b[0] {
            if head_a.skip(1) == head_b.skip(1) {
                assert(head_a =~= seq![head_a[0]] + head_a.skip(1));
                assert(head_b =~= seq![head_b[0]] + head_b.skip(1));
            }
            before_by_head(head_a.skip(1), a, head_b.skip(1), b);
        }
    }
}

/// A string never sorts before its own prefix.
pub proof fn a_prefix_comes_first(prefix: Seq<u8>, s: Seq<u8>)
    requires
        starts_with(s, prefix),
    ensures
        !before(s, prefix),
    decreases prefix.len(),
{
    if prefix.len() > 0 {
        assert(s[0] == s.take(prefix.len() as int)[0]);
        assert(s.skip(1).take(prefix.len() - 1) =~= s.take(prefix.len() as int).skip(1));
        a_prefix_comes_first(prefix.skip(1), s.skip(1));
    }
}

/// The least string that sorts after everything starting with `prefix`, or
/// `None` where every later string starts with it too.
pub open spec fn successor(prefix: Seq<u8>) -> Option<Seq<u8>>
    decreases prefix.len(),
{
    if prefix.len() == 0 {
        None
    } else {
        match successor(prefix.skip(1)) {
            Some(rest) => Some(seq![prefix[0]] + rest),
            None => if prefix[0] < 0xFF {
                Some(seq![(prefix[0] + 1) as u8])
            } else {
                None
            },
        }
    }
}

/// What lies from a prefix up to its successor is what starts with it.
pub proof fn successor_bounds_the_prefix(prefix: Seq<u8>, s: Seq<u8>)
    ensures
        starts_with(s, prefix) <==> !before(s, prefix) && (successor(prefix) matches Some(end) ==> before(
            s,
            end,
        )),
    decreases prefix.len(),
{
    if prefix.len() == 0 {
        assert(s.take(0) =~= prefix);
    } else if s.len() == 0 {
    } else {
        let rest = prefix.skip(1);
        let tail = s.skip(1);
        successor_bounds_the_prefix(rest, tail);
        if s[0] == prefix[0] {
            assert(starts_with(s, prefix) <==> starts_with(tail, rest)) by {
                if starts_with(s, prefix) {
                    assert(tail.take(rest.len() as int) =~= s.take(prefix.len() as int).skip(1));
                }
                if starts_with(tail, rest) {
                    assert(s.take(prefix.len() as int) =~= seq![s[0]] + tail.take(rest.len() as int));
                    assert(prefix =~= seq![prefix[0]] + rest);
                }
            }
            match successor(rest) {
                Some(end) => {
                    assert((seq![prefix[0]] + end).skip(1) =~= end);
                    assert((seq![prefix[0]] + end)[0] == prefix[0]);
                },
                None => {
                    if prefix[0] < 0xFF {
                        let end = seq![(prefix[0] + 1) as u8];
                        assert(successor(prefix) == Some(end));
                        assert(before(s, end));
                    } else {
                        assert(successor(prefix) is None);
                    }
                },
            }
        } else {
            assert(!starts_with(s, prefix)) by {
                if starts_with(s, prefix) {
                    assert(s[0] == s.take(prefix.len() as int)[0]);
                }
            }
            match successor(rest) {
                Some(end) => {
                    assert((seq![prefix[0]] + end)[0] == prefix[0]);
                },
                None => {
                    if prefix[0] < 0xFF {
                        let end = seq![(prefix[0] + 1) as u8];
                        assert(successor(prefix) == Some(end));
                        assert(!before(s.skip(1), end.skip(1)));
                        assert(before(s, end) ==> s[0] < prefix[0]);
                    }
                },
            }
        }
    }
}

/// Appending on both sides of an equal head keeps strings apart.
pub proof fn append_is_injective(a: Seq<u8>, b: Seq<u8>, c: Seq<u8>, d: Seq<u8>)
    requires
        a.len() == c.len(),
        a + b == c + d,
    ensures
        a == c,
        b == d,
{
    assert(a =~= (a + b).take(a.len() as int));
    assert(c =~= (c + d).take(c.len() as int));
    assert(b =~= (a + b).skip(a.len() as int));
    assert(d =~= (c + d).skip(c.len() as int));
}

/// The order of two byte strings.
#[derive(Debug, Clone, Copy, PartialEq, Eq, Structural)]
pub enum Order {
    /// The first sorts before the second.
    Less,
    /// They are the same string.
    Equal,
    /// The second sorts before the first.
    Greater,
}

/// Which of two byte strings sorts first.
pub fn order(a: &[u8], b: &[u8]) -> (o: Order)
    ensures
        o is Less <==> before(a@, b@),
        o is Equal <==> a@ == b@,
        o is Greater <==> before(b@, a@),
{
    let mut i: usize = 0;
    assert(a@.skip(0) =~= a@);
    assert(b@.skip(0) =~= b@);
    while i < a.len() && i < b.len() && a[i] == b[i]
        invariant
            i <= a.len(),
            i <= b.len(),
            a@.take(i as int) == b@.take(i as int),
            before(a@, b@) == before(a@.skip(i as int), b@.skip(i as int)),
            before(b@, a@) == before(b@.skip(i as int), a@.skip(i as int)),
        decreases a.len() - i,
    {
        assert(a@.skip(i as int).skip(1) =~= a@.skip(i + 1));
        assert(b@.skip(i as int).skip(1) =~= b@.skip(i + 1));
        assert(a@.take(i + 1) =~= a@.take(i as int).push(a@[i as int]));
        assert(b@.take(i + 1) =~= b@.take(i as int).push(b@[i as int]));
        i += 1;
    }
    if i == a.len() && i == b.len() {
        assert(a@ =~= a@.take(i as int));
        assert(b@ =~= b@.take(i as int));
        proof {
            before_is_irreflexive(a@);
        }
        return Order::Equal;
    }
    let less: bool = if i == a.len() {
        true
    } else if i == b.len() {
        false
    } else {
        a[i] < b[i]
    };
    proof {
        if a@ == b@ {
            assert(false);
        }
    }
    if less {
        Order::Less
    } else {
        Order::Greater
    }
}

/// Whether two byte strings are the same.
pub fn same(a: &[u8], b: &[u8]) -> (r: bool)
    ensures
        r == (a@ == b@),
{
    if a.len() != b.len() {
        return false;
    }
    match order(a, b) {
        Order::Equal => true,
        _ => false,
    }
}

/// Whether `s` begins with `prefix`.
pub fn has_prefix(s: &[u8], prefix: &[u8]) -> (r: bool)
    ensures
        r == starts_with(s@, prefix@),
{
    if s.len() < prefix.len() {
        return false;
    }
    same(vstd::slice::slice_subrange(s, 0, prefix.len()), prefix)
}

/// A copy of a byte string.
pub fn copy(s: &[u8]) -> (v: Vec<u8>)
    ensures
        v@ == s@,
{
    vstd::slice::slice_to_vec(s)
}

/// The bytes of `s` from `from` on.
pub fn tail_of(s: &[u8], from: usize) -> (v: Vec<u8>)
    requires
        from <= s@.len(),
    ensures
        v@ == s@.skip(from as int),
{
    let v = copy(vstd::slice::slice_subrange(s, from, s.len()));
    assert(v@ =~= s@.skip(from as int));
    v
}

/// Append `extra` to `v`.
pub fn extend(v: &mut Vec<u8>, extra: &[u8])
    ensures
        final(v)@ == old(v)@ + extra@,
{
    v.extend_from_slice(extra);
    assert(v@ =~= old(v)@ + extra@);
}

/// `a` followed by `b`.
pub fn joined(a: &[u8], b: &[u8]) -> (v: Vec<u8>)
    ensures
        v@ == a@ + b@,
{
    let mut v = copy(a);
    extend(&mut v, b);
    v
}

/// A number as four bytes, most significant first.
pub open spec fn be32(x: u32) -> Seq<u8> {
    seq![
        (x / 0x100_0000) as u8,
        ((x / 0x1_0000) % 0x100) as u8,
        ((x / 0x100) % 0x100) as u8,
        (x % 0x100) as u8,
    ]
}

/// The number that four bytes spell, most significant first.
pub open spec fn from_be32(s: Seq<u8>) -> int {
    s[0] * 0x100_0000 + s[1] * 0x1_0000 + s[2] * 0x100 + s[3]
}

/// A number as eight bytes, most significant first.
pub open spec fn be64(x: u64) -> Seq<u8> {
    be32((x / 0x1_0000_0000) as u32) + be32((x % 0x1_0000_0000) as u32)
}

/// The number that eight bytes spell, most significant first.
pub open spec fn from_be64(s: Seq<u8>) -> int {
    from_be32(s.take(4)) * 0x1_0000_0000 + from_be32(s.skip(4))
}

/// Four bytes and the number they spell determine each other.
pub proof fn be32_round_trips(x: u32)
    ensures
        be32(x).len() == 4,
        from_be32(be32(x)) == x,
{
}

/// Eight bytes and the number they spell determine each other.
pub proof fn be64_round_trips(x: u64)
    ensures
        be64(x).len() == 8,
        from_be64(be64(x)) == x,
{
    let hi = (x / 0x1_0000_0000) as u32;
    let lo = (x % 0x1_0000_0000) as u32;
    be32_round_trips(hi);
    be32_round_trips(lo);
    assert(be64(x).take(4) =~= be32(hi));
    assert(be64(x).skip(4) =~= be32(lo));
}

/// Four digits are ordered as the numbers they spell.
proof fn four_digits_keep_the_order(a0: int, a1: int, a2: int, a3: int, b0: int, b1: int, b2: int, b3: int)
    requires
        0 <= a0 < 0x100,
        0 <= a1 < 0x100,
        0 <= a2 < 0x100,
        0 <= a3 < 0x100,
        0 <= b0 < 0x100,
        0 <= b1 < 0x100,
        0 <= b2 < 0x100,
        0 <= b3 < 0x100,
    ensures
        (if a0 != b0 { a0 < b0 } else if a1 != b1 { a1 < b1 } else if a2 != b2 { a2 < b2 } else { a3 < b3 })
            <==> a0 * 0x100_0000 + a1 * 0x1_0000 + a2 * 0x100 + a3 < b0 * 0x100_0000 + b1 * 0x1_0000 + b2 * 0x100
            + b3,
{
}

/// Four bytes are compared one by one.
proof fn before_on_four(a: Seq<u8>, b: Seq<u8>)
    requires
        a.len() == 4,
        b.len() == 4,
    ensures
        before(a, b) == (if a[0] != b[0] { a[0] < b[0] } else if a[1] != b[1] { a[1] < b[1] } else if a[2] != b[2] {
            a[2] < b[2]
        } else {
            a[3] < b[3]
        }),
{
    let a1 = a.skip(1);
    let b1 = b.skip(1);
    let a2 = a1.skip(1);
    let b2 = b1.skip(1);
    let a3 = a2.skip(1);
    let b3 = b2.skip(1);
    assert(a3.skip(1).len() == 0 && b3.skip(1).len() == 0);
    assert(!before(a3.skip(1), b3.skip(1)));
    assert(before(a3, b3) == (a[3] < b[3]));
    assert(before(a2, b2) == if a[2] != b[2] { a[2] < b[2] } else { before(a3, b3) });
    assert(before(a1, b1) == if a[1] != b[1] { a[1] < b[1] } else { before(a2, b2) });
}

/// Numbers and their four bytes are ordered alike.
pub proof fn be32_keeps_the_order(x: u32, y: u32)
    ensures
        before(be32(x), be32(y)) <==> x < y,
{
    let a = be32(x);
    let b = be32(y);
    be32_round_trips(x);
    be32_round_trips(y);
    before_on_four(a, b);
    four_digits_keep_the_order(
        a[0] as int,
        a[1] as int,
        a[2] as int,
        a[3] as int,
        b[0] as int,
        b[1] as int,
        b[2] as int,
        b[3] as int,
    );
}

/// The base-256 digits of a number give the number back.
proof fn digits_are_unique(a: int, b: int, c: int, d: int, x: int)
    requires
        0 <= a < 0x100,
        0 <= b < 0x100,
        0 <= c < 0x100,
        0 <= d < 0x100,
        x == a * 0x100_0000 + b * 0x1_0000 + c * 0x100 + d,
    ensures
        x / 0x100_0000 == a,
        (x / 0x1_0000) % 0x100 == b,
        (x / 0x100) % 0x100 == c,
        x % 0x100 == d,
{
    let y = a * 0x1_0000 + b * 0x100 + c;
    let z = a * 0x100 + b;
    assert(x == y * 0x100 + d);
    assert(x / 0x100 == y && x % 0x100 == d);
    assert(y / 0x100 == z && y % 0x100 == c);
    assert(z / 0x100 == a && z % 0x100 == b);
    assert(x / 0x1_0000 == z);
    assert(x / 0x100_0000 == a);
}

/// `be32` as an executable function.
pub fn u32_to_be(x: u32) -> (v: Vec<u8>)
    ensures
        v@ == be32(x),
{
    let mut v: Vec<u8> = Vec::with_capacity(4);
    v.push((x / 0x100_0000) as u8);
    v.push(((x / 0x1_0000) % 0x100) as u8);
    v.push(((x / 0x100) % 0x100) as u8);
    v.push((x % 0x100) as u8);
    assert(v@ =~= be32(x));
    v
}

/// The number that four bytes spell.
pub fn u32_from_be(s: &[u8]) -> (x: u32)
    requires
        s@.len() == 4,
    ensures
        x == from_be32(s@),
        be32(x) == s@,
{
    let x: u32 = (s[0] as u32) * 0x100_0000 + (s[1] as u32) * 0x1_0000 + (s[2] as u32) * 0x100 + (s[3] as u32);
    proof {
        digits_are_unique(s@[0] as int, s@[1] as int, s@[2] as int, s@[3] as int, x as int);
        assert(be32(x) =~= s@);
    }
    x
}

/// `be64` as an executable function.
pub fn u64_to_be(x: u64) -> (v: Vec<u8>)
    ensures
        v@ == be64(x),
{
    let hi = u32_to_be((x / 0x1_0000_0000) as u32);
    let lo = u32_to_be((x % 0x1_0000_0000) as u32);
    joined(hi.as_slice(), lo.as_slice())
}

/// The number that eight bytes spell.
pub fn u64_from_be(s: &[u8]) -> (x: u64)
    requires
        s@.len() == 8,
    ensures
        x == from_be64(s@),
        be64(x) == s@,
{
    let hi: u32 = u32_from_be(vstd::slice::slice_subrange(s, 0, 4));
    let lo: u32 = u32_from_be(vstd::slice::slice_subrange(s, 4, 8));
    let x: u64 = (hi as u64) * 0x1_0000_0000 + (lo as u64);
    proof {
        assert(s@.subrange(0, 4) =~= s@.take(4));
        assert(s@.subrange(4, 8) =~= s@.skip(4));
        assert(x / 0x1_0000_0000 == hi && x % 0x1_0000_0000 == lo);
        assert(be64(x) =~= s@.take(4) + s@.skip(4));
        assert(s@ =~= s@.take(4) + s@.skip(4));
    }
    x
}

/// A number as four bytes, least significant first.
pub open spec fn le32(x: u32) -> Seq<u8> {
    be32(x).reverse()
}

/// The number that four bytes spell, least significant first.
pub open spec fn from_le32(s: Seq<u8>) -> int {
    from_be32(s.reverse())
}

/// Four bytes and the number they spell determine each other.
pub proof fn le32_round_trips(x: u32)
    ensures
        le32(x).len() == 4,
        from_le32(le32(x)) == x,
{
    assert(le32(x).reverse() =~= be32(x));
    be32_round_trips(x);
}

/// `le32` as an executable function.
pub fn u32_to_le(x: u32) -> (v: Vec<u8>)
    ensures
        v@ == le32(x),
{
    let mut v: Vec<u8> = Vec::with_capacity(4);
    v.push((x % 0x100) as u8);
    v.push(((x / 0x100) % 0x100) as u8);
    v.push(((x / 0x1_0000) % 0x100) as u8);
    v.push((x / 0x100_0000) as u8);
    assert(v@ =~= le32(x));
    v
}

/// The number that four bytes spell, least significant first.
pub fn u32_from_le(s: &[u8]) -> (x: u32)
    requires
        s@.len() == 4,
    ensures
        x == from_le32(s@),
{
    let x: u32 = (s[3] as u32) * 0x100_0000 + (s[2] as u32) * 0x1_0000 + (s[1] as u32) * 0x100 + (s[0] as u32);
    assert(s@.reverse()[0] == s@[3] && s@.reverse()[1] == s@[2] && s@.reverse()[2] == s@[1] && s@.reverse()[3]
        == s@[0]);
    x
}

} // verus!
