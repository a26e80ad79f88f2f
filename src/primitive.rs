use vstd::prelude::*;

verus! {

/// Maps the bit pattern of a 32-bit float to a key whose unsigned order is
/// the order of the floats it stands for (NaN aside): negative floats have
/// all their bits flipped, the others only the sign bit set.
pub open spec fn ordered_key(bits: u32) -> u32 {
    if bits >= 0x8000_0000 {
        (0xFFFF_FFFFu32 - bits) as u32
    } else {
        (bits + 0x8000_0000u32) as u32
    }
}

/// The ordered key of the float whose bit pattern is `bits`.
pub fn order_key(bits: u32) -> (r: u32)
    ensures
        r == ordered_key(bits),
{
    if bits >= 0x8000_0000 {
        0xFFFF_FFFFu32 - bits
    } else {
        bits + 0x8000_0000u32
    }
}

/// A ray accepts a hit at parameter `t` when `t` lies past the offset `eps`
/// that guards against self-intersection and no further than its current
/// bound `max_t`.
pub open spec fn accepts(t: u32, eps: u32, max_t: u32) -> bool {
    eps < t && t <= max_t
}

/// Roots of a primitive along a ray, in ascending order, if it has any.
pub type Roots = Option<(u32, u32)>;

pub open spec fn roots_sorted(c: Roots) -> bool {
    match c {
        Some(p) => p.0 <= p.1,
        None => true,
    }
}

/// `t` is one of the roots of `c`.
pub open spec fn has_root(c: Roots, t: u32) -> bool {
    match c {
        Some(p) => p.0 == t || p.1 == t,
        None => false,
    }
}

/// Some root among the first `n` primitives is accepted under `max_t`.
pub open spec fn any_accepted(cs: Seq<Roots>, n: int, eps: u32, max_t: u32) -> bool {
    exists|i: int, u: u32| 0 <= i < n && #[trigger] has_root(cs[i], u) && accepts(u, eps, max_t)
}

/// `t` is the nearest root accepted under `max_t` among the first `n`
/// primitives.
pub open spec fn nearest_upto(cs: Seq<Roots>, n: int, eps: u32, max_t: u32, t: u32) -> bool {
    &&& accepts(t, eps, max_t)
    &&& exists|i: int| 0 <= i < n && #[trigger] has_root(cs[i], t)
    &&& forall|i: int, u: u32|
        0 <= i < n && #[trigger] has_root(cs[i], u) && accepts(u, eps, max_t) ==> t <= u
}

/// `t` is the nearest accepted root over all of `cs`.
pub open spec fn nearest(cs: Seq<Roots>, eps: u32, max_t: u32, t: u32) -> bool {
    nearest_upto(cs, cs.len() as int, eps, max_t, t)
}

/// `i` is the last of the first `n` primitives that has `t` among its roots.
pub open spec fn last_with_root(cs: Seq<Roots>, n: int, t: u32, i: int) -> bool {
    &&& 0 <= i < n
    &&& has_root(cs[i], t)
    &&& forall|j: int| i < j < n ==> !#[trigger] has_root(cs[j], t)
}

/// Chooses between the two roots `t0 <= t1` of a sphere: the nearer one that
/// the ray accepts wins, and the ray's bound shrinks to it. Returns whether
/// either root was accepted; the bound is left alone otherwise.
pub fn nearest_root(t0: u32, t1: u32, eps: u32, max_t: &mut u32) -> (hit: bool)
    requires
        t0 <= t1,
    ensures
        hit == (accepts(t0, eps, *old(max_t)) || accepts(t1, eps, *old(max_t))),
        hit ==> *final(max_t) == (if accepts(t0, eps, *old(max_t)) {
            t0
        } else {
            t1
        }),
        !hit ==> *final(max_t) == *old(max_t),
{
    if t0 <= eps || t0 > *max_t {
        if t1 <= eps || t1 > *max_t {
            false
        } else {
            *max_t = t1;
            true
        }
    } else {
        *max_t = t0;
        true
    }
}

/// Scans the primitives of a group in order, each trying the ray under the
/// bound that the earlier ones left. Returns the last primitive that hit,
/// which is the one at the nearest accepted root: the bound ends there.
pub fn closest_hit(children: &Vec<Roots>, eps: u32, max_t: &mut u32) -> (r: Option<usize>)
    requires
        forall|i: int| 0 <= i < children@.len() ==> roots_sorted(#[trigger] children@[i]),
    ensures
        r.is_some() == any_accepted(children@, children@.len() as int, eps, *old(max_t)),
        r.is_none() ==> *final(max_t) == *old(max_t),
        r.is_some() ==> nearest(children@, eps, *old(max_t), *final(max_t)),
        r.is_some() ==> last_with_root(children@, children@.len() as int, *final(max_t), r.unwrap() as int),
{
    let ghost cs = children@;
    let ghost bound = *max_t;
    let mut found: Option<usize> = None;
    let mut n: usize = 0;
    while n < children.len()
        invariant
            cs == children@,
            forall|i: int| 0 <= i < cs.len() ==> roots_sorted(#[trigger] cs[i]),
            n <= cs.len(),
            found.is_some() == any_accepted(cs, n as int, eps, bound),
            found.is_none() ==> *max_t == bound,
            found.is_some() ==> nearest_upto(cs, n as int, eps, bound, *max_t),
            found.is_some() ==> last_with_root(cs, n as int, *max_t, found.unwrap() as int),
        decreases cs.len() - n,
    {
        let ghost before = *max_t;
        match children[n] {
            Some((t0, t1)) => {
                if nearest_root(t0, t1, eps, max_t) {
                    found = Some(n);
                    proof {
                        let t = *max_t;
                        assert(has_root(cs[n as int], t));
                        assert forall|i: int, u: u32|
                            0 <= i < n + 1 && #[trigger] has_root(cs[i], u) && accepts(u, eps, bound)
                            implies t <= u by {
                            if i < n {
                                if found.is_some() && any_accepted(cs, n as int, eps, bound) {
                                }
                            }
                        }
                        assert(any_accepted(cs, n + 1, eps, bound));
                    }
                } else {
                    proof {
                        assert forall|u: u32| #[trigger] has_root(cs[n as int], u) implies !accepts(
                            u,
                            eps,
                            before,
                        ) by {}
                        if found.is_some() {
                            assert(accepts(before, eps, before));
                            assert(!has_root(cs[n as int], before));
                        }
                        if found.is_none() {
                            assert(!any_accepted(cs, n + 1, eps, bound)) by {
                                assert forall|i: int, u: u32|
                                    0 <= i < n + 1 && #[trigger] has_root(cs[i], u) implies !accepts(
                                    u,
                                    eps,
                                    bound,
                                ) by {
                                    if i < n {
                                        assert(!(has_root(cs[i], u) && accepts(u, eps, bound)));
                                    }
                                }
                            }
                        } else {
                            assert(any_accepted(cs, n + 1, eps, bound)) by {
                                let w = choose|i: int| 0 <= i < n && #[trigger] has_root(cs[i], *max_t);
                                assert(has_root(cs[w], *max_t) && accepts(*max_t, eps, bound));
                            }
                        }
                    }
                }
            },
            None => {
                proof {
                    if found.is_some() {
                        let w = choose|i: int| 0 <= i < n && #[trigger] has_root(cs[i], *max_t);
                        assert(has_root(cs[w], *max_t) && accepts(*max_t, eps, bound));
                    } else {
                        assert forall|i: int, u: u32|
                            0 <= i < n + 1 && #[trigger] has_root(cs[i], u) implies !accepts(u, eps, bound) by {
                            if i < n {
                                assert(!(has_root(cs[i], u) && accepts(u, eps, bound)));
                            }
                        }
                    }
                }
            },
        }
        n = n + 1;
    }
    found
}

/// The nearest hit of a group does not depend on the order in which its
/// primitives were added: two groups holding the same primitives, in any
/// order, find their nearest accepted root at the same parameter.
pub proof fn lemma_nearest_order_free(
    a: Seq<Roots>,
    b: Seq<Roots>,
    eps: u32,
    max_t: u32,
    ta: u32,
    tb: u32,
)
    requires
        forall|c: Roots| a.contains(c) <==> b.contains(c),
        nearest(a, eps, max_t, ta),
        nearest(b, eps, max_t, tb),
    ensures
        ta == tb,
{
    let i = choose|i: int| 0 <= i < a.len() && #[trigger] has_root(a[i], ta);
    assert(a.contains(a[i]));
    let j = choose|j: int| 0 <= j < b.len() && b[j] == a[i];
    assert(has_root(b[j], ta));
    let k = choose|k: int| 0 <= k < b.len() && #[trigger] has_root(b[k], tb);
    assert(b.contains(b[k]));
    let m = choose|m: int| 0 <= m < a.len() && a[m] == b[k];
    assert(has_root(a[m], tb));
}

} // verus!
