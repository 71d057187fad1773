//! Configuration-list normalization: seed positions and reference colors
//! arrive as free-form lists and are sorted and deduplicated before use.
//! The core works on integer keys; positions and colors are carried through
//! an order-preserving encoding.

use vstd::prelude::*;

verus! {

/// Strictly increasing: sorted with no duplicates.
pub open spec fn sorted_strict(s: Seq<u64>) -> bool {
    forall|i: int, j: int| 0 <= i < j < s.len() ==> s[i] < s[j]
}

/// Sorts the input and drops duplicates: the result is strictly increasing
/// and holds exactly the values of the input.
pub fn sort_dedup_u64(input: &Vec<u64>) -> (r: Vec<u64>)
    ensures
        sorted_strict(r@),
        forall|x: u64| r@.contains(x) <==> input@.contains(x),
{
    let mut out: Vec<u64> = Vec::new();
    let mut i: usize = 0;
    while i < input.len()
        invariant
            i <= input@.len(),
            sorted_strict(out@),
            forall|x: u64| out@.contains(x) <==> input@.subrange(0, i as int).contains(x),
        decreases input@.len() - i,
    {
        let v = input[i];
        let ghost prefix = input@.subrange(0, i as int);
        // find the first position whose value is not below v
        let mut p: usize = 0;
        while p < out.len() && out[p] < v
            invariant
                p <= out@.len(),
                forall|j: int| 0 <= j < p ==> out@[j] < v,
            decreases out@.len() - p,
        {
            p = p + 1;
        }
        let ghost before = out@;
        if p == out.len() || out[p] != v {
            out.insert(p, v);
            proof {
                before.insert_ensures(p as int, v);
                // strictly increasing is preserved around the insertion point
                assert forall|a: int, b: int| 0 <= a < b < out@.len() implies out@[a] < out@[b] by {
                    if b < p {
                    } else if a < p && b == p {
                        assert(out@[a] == before[a]);
                    } else if a < p && b > p {
                        assert(out@[a] == before[a] && out@[b] == before[b - 1]);
                        assert(before[p as int] >= v);
                    } else if a == p {
                        assert(out@[b] == before[b - 1]);
                        assert(before[p as int] >= v);
                        assert(before[p as int] != v);
                    } else {
                        assert(out@[a] == before[a - 1] && out@[b] == before[b - 1]);
                    }
                }
                // membership gains exactly v
                assert forall|x: u64| out@.contains(x) implies (before.contains(x) || x == v) by {
                    let j = choose|j: int| 0 <= j < out@.len() && out@[j] == x;
                    if j < p {
                        assert(before[j] == x);
                    } else if j == p {
                    } else {
                        assert(before[j - 1] == x);
                    }
                }
                assert forall|x: u64| before.contains(x) || x == v implies out@.contains(x) by {
                    if x == v {
                        assert(out@[p as int] == x);
                    } else {
                        let j = choose|j: int| 0 <= j < before.len() && before[j] == x;
                        if j < p {
                            assert(out@[j] == x);
                        } else {
                            assert(out@[j + 1] == x);
                        }
                    }
                }
            }
        } else {
            proof {
                assert(out@[p as int] == v);
                assert(out@.contains(v));
            }
        }
        proof {
            assert(input@.subrange(0, i + 1) =~= prefix.push(v));
            assert(forall|x: u64| #[trigger] before.contains(x) <==> prefix.contains(x));
            assert(forall|x: u64| #[trigger] out@.contains(x) ==> before.contains(x) || x == v);
            assert(forall|x: u64| #[trigger] before.contains(x) ==> out@.contains(x));
            assert(out@.contains(v));
            assert forall|x: u64|
                out@.contains(x) implies input@.subrange(0, i + 1).contains(x) by {
                if x == v {
                    assert(input@.subrange(0, i + 1)[i as int] == x);
                } else {
                    assert(prefix.contains(x));
                    let j = choose|j: int| 0 <= j < prefix.len() && prefix[j] == x;
                    assert(input@.subrange(0, i + 1)[j] == x);
                }
            }
            assert forall|x: u64|
                input@.subrange(0, i + 1).contains(x) implies out@.contains(x) by {
                let j = choose|j: int|
                    0 <= j < input@.subrange(0, i + 1).len() && #[trigger] input@.subrange(
                        0,
                        i + 1,
                    )[j] == x;
                if j < i {
                    assert(prefix[j] == x);
                    assert(prefix.contains(x));
                    assert(before.contains(x));
                } else {
                    assert(j == i);
                    assert(prefix.push(v)[j] == x);
                    assert(prefix.push(v)[i as int] == v);
                    assert(x == v);
                }
            }
        }
        i = i + 1;
    }
    proof {
        assert(input@.subrange(0, input@.len() as int) =~= input@);
    }
    out
}

/// The order-preserving key of a seed position: x in the high half, y in
/// the low half, so key order is exactly lexicographic position order.
pub open spec fn pos_key(p: (u32, u32)) -> int {
    p.0 * 0x1_0000_0000 + p.1
}

/// Lexicographic position order.
pub open spec fn pos_lt(a: (u32, u32), b: (u32, u32)) -> bool {
    a.0 < b.0 || (a.0 == b.0 && a.1 < b.1)
}

proof fn lemma_pos_key_lt(a: (u32, u32), b: (u32, u32))
    ensures
        pos_key(a) < pos_key(b) <==> pos_lt(a, b),
        pos_key(a) == pos_key(b) <==> a == b,
        0 <= pos_key(a) <= u64::MAX,
{
    assert((a.0 as int) * 0x1_0000_0000 + a.1 < (b.0 as int) * 0x1_0000_0000 + b.1 <==> (a.0 < b.0
        || (a.0 == b.0 && a.1 < b.1))) by (nonlinear_arith)
        requires
            a.1 < 0x1_0000_0000,
            b.1 < 0x1_0000_0000,
            0 <= a.0,
            0 <= b.0,
    ;
    assert((a.0 as int) * 0x1_0000_0000 + a.1 == (b.0 as int) * 0x1_0000_0000 + b.1 <==> (a.0
        == b.0 && a.1 == b.1)) by (nonlinear_arith)
        requires
            a.1 < 0x1_0000_0000,
            b.1 < 0x1_0000_0000,
            0 <= a.0,
            0 <= b.0,
    ;
    assert(0 <= (a.0 as int) * 0x1_0000_0000 + a.1 <= u64::MAX) by (nonlinear_arith)
        requires
            0 <= a.0 < 0x1_0000_0000,
            0 <= a.1 < 0x1_0000_0000,
    ;
}

fn encode_pos(p: (u32, u32)) -> (k: u64)
    ensures
        k == pos_key(p),
{
    proof {
        lemma_pos_key_lt(p, p);
    }
    (p.0 as u64) * 0x1_0000_0000u64 + (p.1 as u64)
}

fn decode_pos(k: u64) -> (p: (u32, u32))
    ensures
        pos_key(p) == k,
{
    proof {
        vstd::arithmetic::div_mod::lemma_fundamental_div_mod(k as int, 0x1_0000_0000);
        vstd::arithmetic::div_mod::lemma_mod_bound(k as int, 0x1_0000_0000);
        vstd::arithmetic::div_mod::lemma_multiply_divide_lt(
            k as int,
            0x1_0000_0000,
            0x1_0000_0000,
        );
        vstd::arithmetic::mul::lemma_mul_is_commutative(
            0x1_0000_0000,
            k as int / 0x1_0000_0000,
        );
        vstd::arithmetic::div_mod::lemma_div_pos_is_pos(k as int, 0x1_0000_0000);
    }
    (((k / 0x1_0000_0000u64) as u32), ((k % 0x1_0000_0000u64) as u32))
}

/// Sorts the seed-position list lexicographically and drops duplicates, as
/// configuration loading requires: the result is strictly increasing and
/// holds exactly the input's positions.
pub fn normalize_positions(input: &Vec<(u32, u32)>) -> (r: Vec<(u32, u32)>)
    ensures
        forall|i: int, j: int| 0 <= i < j < r@.len() ==> pos_lt(#[trigger] r@[i], #[trigger] r@[j]),
        forall|p: (u32, u32)| r@.contains(p) <==> input@.contains(p),
{
    let mut keys: Vec<u64> = Vec::new();
    let mut i: usize = 0;
    while i < input.len()
        invariant
            i <= input@.len(),
            keys@.len() == i,
            forall|j: int| 0 <= j < i ==> keys@[j] == pos_key(#[trigger] input@[j]),
        decreases input@.len() - i,
    {
        keys.push(encode_pos(input[i]));
        i = i + 1;
    }
    let sorted = sort_dedup_u64(&keys);
    let mut out: Vec<(u32, u32)> = Vec::new();
    let mut t: usize = 0;
    while t < sorted.len()
        invariant
            t <= sorted@.len(),
            out@.len() == t,
            keys@.len() == input@.len(),
            forall|j: int| 0 <= j < input@.len() ==> keys@[j] == pos_key(#[trigger] input@[j]),
            sorted_strict(sorted@),
            forall|x: u64| sorted@.contains(x) <==> keys@.contains(x),
            forall|j: int|
                0 <= j < t ==> pos_key(#[trigger] out@[j]) == sorted@[j] && input@.contains(
                    out@[j],
                ),
        decreases sorted@.len() - t,
    {
        let p = decode_pos(sorted[t]);
        proof {
            assert(sorted@.contains(sorted@[t as int]));
            let j = choose|j: int| 0 <= j < keys@.len() && keys@[j] == sorted@[t as int];
            lemma_pos_key_lt(p, input@[j]);
            assert(p == input@[j]);
        }
        out.push(p);
        t = t + 1;
    }
    proof {
        assert forall|a: int, b: int|
            0 <= a < b < out@.len() implies pos_lt(#[trigger] out@[a], #[trigger] out@[b]) by {
            lemma_pos_key_lt(out@[a], out@[b]);
        }
        assert forall|p: (u32, u32)| out@.contains(p) implies input@.contains(p) by {
            let j = choose|j: int| 0 <= j < out@.len() && out@[j] == p;
        }
        assert forall|p: (u32, u32)| input@.contains(p) implies out@.contains(p) by {
            let j = choose|j: int| 0 <= j < input@.len() && input@[j] == p;
            assert(keys@[j] == pos_key(p));
            assert(keys@.contains(pos_key(p) as u64)) by {
                lemma_pos_key_lt(p, p);
                assert(keys@[j] == pos_key(p) as u64);
            }
            assert(sorted@.contains(pos_key(p) as u64));
            let s = choose|s: int| 0 <= s < sorted@.len() && sorted@[s] == pos_key(p) as u64;
            lemma_pos_key_lt(out@[s], p);
            assert(out@[s] == p);
        }
    }
    out
}

/// The order-preserving key of a reference color: channels packed high to
/// low, so key order is exactly lexicographic channel order.
pub open spec fn color_key(c: (u8, u8, u8)) -> int {
    c.0 * 0x1_0000 + c.1 * 0x100 + c.2
}

/// Lexicographic channel order.
pub open spec fn color_lt(a: (u8, u8, u8), b: (u8, u8, u8)) -> bool {
    a.0 < b.0 || (a.0 == b.0 && (a.1 < b.1 || (a.1 == b.1 && a.2 < b.2)))
}

proof fn lemma_color_key_lt(a: (u8, u8, u8), b: (u8, u8, u8))
    ensures
        color_key(a) < color_key(b) <==> color_lt(a, b),
        color_key(a) == color_key(b) <==> a == b,
        0 <= color_key(a) <= 0xFF_FFFF,
{
    assert((a.0 as int) * 0x1_0000 + a.1 * 0x100 + a.2 < (b.0 as int) * 0x1_0000 + b.1 * 0x100
        + b.2 <==> (a.0 < b.0 || (a.0 == b.0 && (a.1 < b.1 || (a.1 == b.1 && a.2 < b.2)))))
        by (nonlinear_arith)
        requires
            a.1 < 0x100,
            a.2 < 0x100,
            b.1 < 0x100,
            b.2 < 0x100,
            0 <= a.0,
            0 <= b.0,
            0 <= a.1,
            0 <= a.2,
            0 <= b.1,
            0 <= b.2,
    ;
    assert((a.0 as int) * 0x1_0000 + a.1 * 0x100 + a.2 == (b.0 as int) * 0x1_0000 + b.1 * 0x100
        + b.2 <==> (a.0 == b.0 && a.1 == b.1 && a.2 == b.2)) by (nonlinear_arith)
        requires
            a.1 < 0x100,
            a.2 < 0x100,
            b.1 < 0x100,
            b.2 < 0x100,
            0 <= a.0,
            0 <= b.0,
            0 <= a.1,
            0 <= a.2,
            0 <= b.1,
            0 <= b.2,
    ;
    assert(0 <= (a.0 as int) * 0x1_0000 + a.1 * 0x100 + a.2 <= 0xFF_FFFF) by (nonlinear_arith)
        requires
            a.0 < 0x100,
            a.1 < 0x100,
            a.2 < 0x100,
            0 <= a.0,
            0 <= a.1,
            0 <= a.2,
    ;
}

fn encode_color(c: (u8, u8, u8)) -> (k: u64)
    ensures
        k == color_key(c),
{
    proof {
        lemma_color_key_lt(c, c);
    }
    (c.0 as u64) * 0x1_0000u64 + (c.1 as u64) * 0x100u64 + (c.2 as u64)
}

fn decode_color(k: u64) -> (c: (u8, u8, u8))
    requires
        k <= 0xFF_FFFF,
    ensures
        color_key(c) == k,
{
    proof {
        vstd::arithmetic::div_mod::lemma_fundamental_div_mod(k as int, 0x1_0000);
        vstd::arithmetic::div_mod::lemma_mod_bound(k as int, 0x1_0000);
        vstd::arithmetic::div_mod::lemma_multiply_divide_lt(k as int, 0x1_0000, 0x100);
        vstd::arithmetic::div_mod::lemma_div_pos_is_pos(k as int, 0x1_0000);
        vstd::arithmetic::mul::lemma_mul_is_commutative(0x1_0000, k as int / 0x1_0000);
        let rem = k as int % 0x1_0000;
        vstd::arithmetic::div_mod::lemma_fundamental_div_mod(rem, 0x100);
        vstd::arithmetic::div_mod::lemma_mod_bound(rem, 0x100);
        vstd::arithmetic::div_mod::lemma_multiply_divide_lt(rem, 0x100, 0x100);
        vstd::arithmetic::div_mod::lemma_div_pos_is_pos(rem, 0x100);
        vstd::arithmetic::mul::lemma_mul_is_commutative(0x100, rem / 0x100);
    }
    let rem: u64 = k % 0x1_0000u64;
    (((k / 0x1_0000u64) as u8), ((rem / 0x100u64) as u8), ((rem % 0x100u64) as u8))
}

/// Sorts the reference-color list lexicographically and drops duplicates,
/// as configuration loading requires: the result is strictly increasing and
/// holds exactly the input's colors.
pub fn normalize_colors(input: &Vec<(u8, u8, u8)>) -> (r: Vec<(u8, u8, u8)>)
    ensures
        forall|i: int, j: int|
            0 <= i < j < r@.len() ==> color_lt(#[trigger] r@[i], #[trigger] r@[j]),
        forall|c: (u8, u8, u8)| r@.contains(c) <==> input@.contains(c),
{
    let mut keys: Vec<u64> = Vec::new();
    let mut i: usize = 0;
    while i < input.len()
        invariant
            i <= input@.len(),
            keys@.len() == i,
            forall|j: int| 0 <= j < i ==> keys@[j] == color_key(#[trigger] input@[j]),
        decreases input@.len() - i,
    {
        keys.push(encode_color(input[i]));
        i = i + 1;
    }
    let sorted = sort_dedup_u64(&keys);
    let mut out: Vec<(u8, u8, u8)> = Vec::new();
    let mut t: usize = 0;
    while t < sorted.len()
        invariant
            t <= sorted@.len(),
            out@.len() == t,
            keys@.len() == input@.len(),
            forall|j: int| 0 <= j < input@.len() ==> keys@[j] == color_key(#[trigger] input@[j]),
            sorted_strict(sorted@),
            forall|x: u64| sorted@.contains(x) <==> keys@.contains(x),
            forall|j: int|
                0 <= j < t ==> color_key(#[trigger] out@[j]) == sorted@[j] && input@.contains(
                    out@[j],
                ),
        decreases sorted@.len() - t,
    {
        let k = sorted[t];
        proof {
            assert(sorted@.contains(sorted@[t as int]));
            let j = choose|j: int| 0 <= j < keys@.len() && keys@[j] == sorted@[t as int];
            lemma_color_key_lt(input@[j], input@[j]);
        }
        let c = decode_color(k);
        proof {
            let j = choose|j: int| 0 <= j < keys@.len() && keys@[j] == sorted@[t as int];
            lemma_color_key_lt(c, input@[j]);
            assert(c == input@[j]);
        }
        out.push(c);
        t = t + 1;
    }
    proof {
        assert forall|a: int, b: int|
            0 <= a < b < out@.len() implies color_lt(#[trigger] out@[a], #[trigger] out@[b]) by {
            lemma_color_key_lt(out@[a], out@[b]);
        }
        assert forall|c: (u8, u8, u8)| out@.contains(c) implies input@.contains(c) by {
            let j = choose|j: int| 0 <= j < out@.len() && out@[j] == c;
        }
        assert forall|c: (u8, u8, u8)| input@.contains(c) implies out@.contains(c) by {
            let j = choose|j: int| 0 <= j < input@.len() && input@[j] == c;
            assert(keys@[j] == color_key(c));
            assert(keys@.contains(color_key(c) as u64)) by {
                lemma_color_key_lt(c, c);
                assert(keys@[j] == color_key(c) as u64);
            }
            assert(sorted@.contains(color_key(c) as u64));
            let s = choose|s: int| 0 <= s < sorted@.len() && sorted@[s] == color_key(c) as u64;
            lemma_color_key_lt(out@[s], c);
            assert(out@[s] == c);
        }
    }
    out
}

} // verus!
