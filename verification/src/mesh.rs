//! Mesh silhouettes: a mesh edge shared by exactly two drawn triangles, one
//! facing the viewer and one facing away, approximates the silhouette of a
//! smooth surface.
use vstd::prelude::*;
use crate::seqs::lemma_push_contains;
use std::collections::HashMap;

verus! {

broadcast use vstd::std_specs::hash::group_hash_axioms;

/// An undirected edge, as its smaller and larger vertex index.
pub open spec fn edge_key(a: u32, b: u32) -> (u32, u32) {
    if a <= b {
        (a, b)
    } else {
        (b, a)
    }
}

/// The three edges of triangle `t`, each with the triangle's orientation.
pub open spec fn triangle_edges(indices: Seq<u32>, t: int, front: bool) -> Seq<((u32, u32), bool)> {
    let a = indices[3 * t];
    let b = indices[3 * t + 1];
    let c = indices[3 * t + 2];
    seq![(edge_key(a, b), front), (edge_key(b, c), front), (edge_key(c, a), front)]
}

/// The edges of the first `t` triangles that are drawn (`Some` orientation).
pub open spec fn edge_records(indices: Seq<u32>, front: Seq<Option<bool>>, t: int) -> Seq<
    ((u32, u32), bool),
>
    decreases t,
{
    if t <= 0 {
        Seq::empty()
    } else {
        edge_records(indices, front, t - 1) + match front[t - 1] {
            Some(f) => triangle_edges(indices, t - 1, f),
            None => Seq::empty(),
        }
    }
}

pub open spec fn mesh_edges(indices: Seq<u32>, front: Seq<Option<bool>>) -> Seq<((u32, u32), bool)> {
    edge_records(indices, front, front.len() as int)
}

/// The orientations of the drawn triangles that share the edge, in order.
pub open spec fn sides(records: Seq<((u32, u32), bool)>, key: (u32, u32)) -> Seq<bool>
    decreases records.len(),
{
    if records.len() == 0 {
        Seq::empty()
    } else {
        let rest = sides(records.drop_last(), key);
        if records.last().0 == key {
            rest.push(records.last().1)
        } else {
            rest
        }
    }
}

/// Exactly two triangles share the edge, and they face opposite ways.
pub open spec fn is_silhouette(records: Seq<((u32, u32), bool)>, key: (u32, u32)) -> bool {
    let s = sides(records, key);
    s.len() == 2 && s[0] != s[1]
}

pub open spec fn key_code(k: (u32, u32)) -> u64 {
    (k.0 as int * 0x1_0000_0000 + k.1 as int) as u64
}

/// How many sides were seen (at most 3), the first side, and whether the
/// first two differ.
pub open spec fn summary(s: Seq<bool>) -> (u8, bool, bool) {
    (
        if s.len() >= 3 {
            3u8
        } else {
            s.len() as u8
        },
        if s.len() > 0 {
            s[0]
        } else {
            false
        },
        s.len() >= 2 && s[0] != s[1],
    )
}

proof fn lemma_key_code_injective(k: (u32, u32), l: (u32, u32))
    requires
        key_code(k) == key_code(l),
    ensures
        k == l,
{
    let a = k.0 as int;
    let b = k.1 as int;
    let c = l.0 as int;
    let d = l.1 as int;
    assert(a * 0x1_0000_0000 + b <= u64::MAX) by (nonlinear_arith)
        requires
            0 <= a < 0x1_0000_0000,
            0 <= b < 0x1_0000_0000,
    ;
    assert(c * 0x1_0000_0000 + d <= u64::MAX) by (nonlinear_arith)
        requires
            0 <= c < 0x1_0000_0000,
            0 <= d < 0x1_0000_0000,
    ;
    assert(a == c && b == d) by (nonlinear_arith)
        requires
            0 <= b < 0x1_0000_0000,
            0 <= d < 0x1_0000_0000,
            a * 0x1_0000_0000 + b == c * 0x1_0000_0000 + d,
    ;
}

fn code_of(k: (u32, u32)) -> (c: u64)
    ensures
        c == key_code(k),
{
    let c = (k.0 as u64) * 0x1_0000_0000u64 + (k.1 as u64);
    assert(k.0 as int * 0x1_0000_0000 + k.1 as int <= u64::MAX) by (nonlinear_arith)
        requires
            0 <= k.0 < 0x1_0000_0000,
            0 <= k.1 < 0x1_0000_0000,
    ;
    c
}

fn key_of(a: u32, b: u32) -> (k: (u32, u32))
    ensures
        k == edge_key(a, b),
{
    if a <= b {
        (a, b)
    } else {
        (b, a)
    }
}

proof fn lemma_sides_occur(records: Seq<((u32, u32), bool)>, key: (u32, u32))
    requires
        sides(records, key).len() > 0,
    ensures
        exists|j: int| 0 <= j < records.len() && (#[trigger] records[j]).0 == key,
    decreases records.len(),
{
    if records.last().0 == key {
        assert(records[records.len() - 1].0 == key);
    } else {
        lemma_sides_occur(records.drop_last(), key);
        let j = choose|j: int|
            0 <= j < records.drop_last().len() && (#[trigger] records.drop_last()[j]).0 == key;
        assert(records[j] == records.drop_last()[j]);
    }
}

/// The silhouette edges of a mesh, each once: `indices` lists three vertex
/// indices per triangle, and `front[t]` is the orientation of triangle `t`
/// toward the viewer, or `None` where it is not drawn.
pub fn silhouette_edges(indices: &[u32], front: &[Option<bool>]) -> (r: Vec<(u32, u32)>)
    requires
        3 * front@.len() <= indices@.len(),
    ensures
        r@.no_duplicates(),
        forall|k: (u32, u32)|
            r@.contains(k) <==> is_silhouette(mesh_edges(indices@, front@), k),
{
    let mut records: Vec<((u32, u32), bool)> = Vec::new();
    let n = indices.len();
    let mut t: usize = 0;
    while t < front.len()
        invariant
            t <= front@.len(),
            n == indices@.len(),
            3 * front@.len() <= n,
            records@ == edge_records(indices@, front@, t as int),
        decreases front@.len() - t,
    {
        match front[t] {
            Some(f) => {
                let a = indices[3 * t];
                let b = indices[3 * t + 1];
                let c = indices[3 * t + 2];
                records.push((key_of(a, b), f));
                records.push((key_of(b, c), f));
                records.push((key_of(c, a), f));
            },
            None => {},
        }
        t += 1;
        assert(records@ =~= edge_records(indices@, front@, t as int));
    }
    let ghost all = records@;
    assert(all == mesh_edges(indices@, front@));
    let mut seen: HashMap<u64, (u8, bool, bool)> = HashMap::new();
    let mut i: usize = 0;
    while i < records.len()
        invariant
            i <= records@.len(),
            records@ == all,
            forall|k: (u32, u32)|
                #![trigger seen@.contains_key(key_code(k))]
                seen@.contains_key(key_code(k)) <==> sides(all.take(i as int), k).len() > 0,
            forall|k: (u32, u32)|
                #![trigger seen@.contains_key(key_code(k))]
                seen@.contains_key(key_code(k)) ==> seen@[key_code(k)] == summary(
                    sides(all.take(i as int), k),
                ),
        decreases records@.len() - i,
    {
        let (k, f) = records[i];
        let code = code_of(k);
        let ghost prefix = all.take(i as int);
        let ghost next = all.take(i + 1);
        assert(next.drop_last() =~= prefix);
        assert(next.last() == (k, f));
        let updated: (u8, bool, bool) = match seen.get(&code) {
            None => (1, f, false),
            Some(v) => {
                let (count, first, differs) = *v;
                if count == 1 {
                    (2, first, first != f)
                } else {
                    (3, first, differs)
                }
            },
        };
        proof {
            let sp = sides(prefix, k);
            assert(sides(next, k) == sp.push(f));
            assert(seen@.contains_key(code) <==> sp.len() > 0);
            if sp.len() > 0 {
                assert(seen@[code] == summary(sp));
            }
            assert(updated == summary(sp.push(f)));
        }
        let ghost before_seen = seen@;
        seen.insert(code, updated);
        proof {
            assert forall|l: (u32, u32)|
                #![trigger seen@.contains_key(key_code(l))]
                seen@.contains_key(key_code(l)) <==> sides(next, l).len() > 0 by {
                if l != k {
                    if key_code(l) == key_code(k) {
                        lemma_key_code_injective(l, k);
                    }
                    assert(sides(next, l) == sides(prefix, l));
                    assert(before_seen.contains_key(key_code(l)) <==> sides(prefix, l).len() > 0);
                }
            }
            assert forall|l: (u32, u32)|
                #![trigger seen@.contains_key(key_code(l))]
                seen@.contains_key(key_code(l)) implies seen@[key_code(l)] == summary(
                    sides(next, l),
                ) by {
                if l != k {
                    if key_code(l) == key_code(k) {
                        lemma_key_code_injective(l, k);
                    }
                    assert(sides(next, l) == sides(prefix, l));
                    assert(before_seen.contains_key(key_code(l)));
                }
            }
        }
        i += 1;
    }
    assert(all.take(all.len() as int) =~= all);
    let mut out: Vec<(u32, u32)> = Vec::new();
    let mut j: usize = 0;
    while j < records.len()
        invariant
            j <= records@.len(),
            records@ == all,
            forall|k: (u32, u32)|
                #![trigger seen@.contains_key(key_code(k))]
                seen@.contains_key(key_code(k)) ==> seen@[key_code(k)] == summary(sides(all, k)),
            forall|k: (u32, u32)|
                #![trigger is_silhouette(all, k)]
                is_silhouette(all, k) ==> (out@.contains(k) <==> !seen@.contains_key(
                    key_code(k),
                )),
            forall|k: (u32, u32)| #[trigger] out@.contains(k) ==> is_silhouette(all, k),
            out@.no_duplicates(),
            forall|m: int|
                0 <= m < j && is_silhouette(all, (#[trigger] all[m]).0) ==> out@.contains(
                    all[m].0,
                ),
        decreases records@.len() - j,
    {
        let (k, _) = records[j];
        let code = code_of(k);
        let emit = match seen.get(&code) {
            Some(v) => v.0 == 2 && v.2,
            None => false,
        };
        if emit {
            let ghost before = out@;
            let ghost before_seen = seen@;
            assert(!before.contains(k));
            seen.remove(&code);
            out.push(k);
            proof {
                assert forall|l: (u32, u32)| #[trigger] out@.contains(l) implies is_silhouette(
                    all,
                    l,
                ) by {
                    if l != k {
                        assert(before.contains(l));
                    }
                }
                assert forall|l: (u32, u32)| #[trigger] is_silhouette(all, l) implies (
                out@.contains(l) <==> !seen@.contains_key(key_code(l))) by {
                    if l != k {
                        if key_code(l) == key_code(k) {
                            lemma_key_code_injective(l, k);
                        }
                        lemma_push_contains(before, k, l);
                    } else {
                        assert(out@[out@.len() - 1] == k);
                    }
                }
                assert forall|l: (u32, u32)|
                    #![trigger seen@.contains_key(key_code(l))]
                    seen@.contains_key(key_code(l)) implies seen@[key_code(l)] == summary(
                    sides(all, l),
                ) by {
                    if key_code(l) == key_code(k) {
                        lemma_key_code_injective(l, k);
                    }
                    assert(before_seen.contains_key(key_code(l)));
                }
                assert forall|m: int|
                    0 <= m < j + 1 && is_silhouette(all, (#[trigger] all[m]).0) implies out@.contains(
                    all[m].0,
                ) by {
                    if m < j {
                        assert(before.contains(all[m].0));
                    } else {
                        assert(out@[out@.len() - 1] == k);
                    }
                }
                assert(out@.no_duplicates()) by {
                    assert forall|x: int, y: int|
                        0 <= x < out@.len() && 0 <= y < out@.len() && x != y implies out@[x]
                        != out@[y] by {
                        if x < before.len() && y < before.len() {
                        } else if x == before.len() {
                            assert(before[y] == out@[y]);
                        } else {
                            assert(before[x] == out@[x]);
                        }
                    }
                }
            }
        }
        j += 1;
    }
    proof {
        assert forall|k: (u32, u32)| out@.contains(k) <==> is_silhouette(all, k) by {
            if is_silhouette(all, k) {
                lemma_sides_occur(all, k);
                let m = choose|m: int| 0 <= m < all.len() && (#[trigger] all[m]).0 == k;
                assert(is_silhouette(all, all[m].0));
            }
        }
    }
    out
}

} // verus!
