use vstd::prelude::*;

verus! {

/// The magnitude bits of an encoded score: the encoding with its sign bit
/// cleared.
pub open spec fn magnitude_bits(score: u32) -> u32 {
    if score >= 0x8000_0000u32 {
        (score - 0x8000_0000u32) as u32
    } else {
        score
    }
}

/// Whether an encoded score is a NaN: its exponent bits are all ones and its
/// mantissa is non-zero, that is, its magnitude lies strictly above the
/// magnitude of an infinity.
pub open spec fn is_nan_score(score: u32) -> bool {
    magnitude_bits(score) > 0x7F80_0000u32
}

/// The rank key of an encoded similarity score.
///
/// Scores are IEEE-754 single-precision bit patterns. Comparing rank keys as
/// plain `u32` values orders the encoded values by the IEEE-754 total order
/// (negative values reversed, positive values offset past them), with one
/// deliberate exception: every NaN encoding is mapped to key `0` and so
/// ranks below every numeric value, including negative infinity. No numeric
/// encoding maps to key `0`, so the policy is unambiguous: records whose
/// similarity is undefined (for instance against a zero-norm vector) always
/// come last, deterministically.
pub open spec fn key_of(score: u32) -> u32 {
    if is_nan_score(score) {
        0u32
    } else if score >= 0x8000_0000u32 {
        (0xFFFF_FFFFu32 - score) as u32
    } else {
        (score + 0x8000_0000u32) as u32
    }
}

/// Pairwise distinctness of the identifiers in a scored list.
pub open spec fn distinct_ids(s: Seq<(String, u32)>) -> bool {
    forall|i: int, j: int| 0 <= i < j < s.len() ==> s[i].0@ != s[j].0@
}

/// Whether a scored pair occurs in a scored list.
pub open spec fn in_seq(p: (String, u32), s: Seq<(String, u32)>) -> bool {
    exists|j: int| 0 <= j < s.len() && s[j] == p
}

/// What it means for `r` to be the `k` nearest entries of `scored`:
/// `r` is as long as `k` allows but never longer than `scored`, descends by
/// rank key, consists of entries of `scored`, and leaves out only entries
/// that rank no higher than its last one.
pub open spec fn ranked(scored: Seq<(String, u32)>, k: int, r: Seq<(String, u32)>) -> bool {
    &&& r.len() == (if k <= scored.len() as int {
        k
    } else {
        scored.len() as int
    })
    &&& (forall|a: int, b: int| 0 <= a < b < r.len() ==> key_of(r[a].1) >= key_of(r[b].1))
    &&& (forall|a: int| 0 <= a < r.len() ==> in_seq(#[trigger] r[a], scored))
    &&& (forall|j: int|
        0 <= j < scored.len() && r.len() > 0 && !in_seq(#[trigger] scored[j], r) ==> key_of(
            scored[j].1,
        ) <= key_of(r[r.len() - 1].1))
}

/// Computes the rank key of an encoded similarity score.
pub fn sort_key(score: u32) -> (r: u32)
    ensures
        r == key_of(score),
{
    let magnitude: u32 = if score >= 0x8000_0000u32 {
        score - 0x8000_0000u32
    } else {
        score
    };
    if magnitude > 0x7F80_0000u32 {
        0u32
    } else if score >= 0x8000_0000u32 {
        0xFFFF_FFFFu32 - score
    } else {
        score + 0x8000_0000u32
    }
}

/// Returns the `k` entries of `scored` whose rank keys are highest, in
/// descending key order; with `k` past the length of `scored` every entry is
/// returned, still in descending key order, and identifiers stay distinct if
/// they were.
pub fn rank_top_k(scored: Vec<(String, u32)>, k: usize) -> (r: Vec<(String, u32)>)
    ensures
        ranked(scored@, k as int, r@),
        distinct_ids(scored@) ==> distinct_ids(r@),
{
    let ghost orig = scored@;
    let mut pool = scored;
    let mut out: Vec<(String, u32)> = Vec::new();
    while out.len() < k && pool.len() > 0
        invariant
            out@.len() + pool@.len() == orig.len(),
            out@.len() <= k,
            forall|a: int, b: int|
                0 <= a < b < out@.len() ==> key_of(out@[a].1) >= key_of(out@[b].1),
            forall|a: int, t: int|
                #![trigger out@[a], pool@[t]]
                0 <= a < out@.len() && 0 <= t < pool@.len() ==> key_of(out@[a].1) >= key_of(
                    pool@[t].1,
                ),
            forall|a: int| 0 <= a < out@.len() ==> in_seq(#[trigger] out@[a], orig),
            forall|t: int| 0 <= t < pool@.len() ==> in_seq(#[trigger] pool@[t], orig),
            forall|j: int|
                0 <= j < orig.len() ==> in_seq(#[trigger] orig[j], out@) || in_seq(orig[j], pool@),
            distinct_ids(orig) ==> distinct_ids(out@) && distinct_ids(pool@) && (forall|
                a: int,
                t: int,
            |
                #![trigger out@[a], pool@[t]]
                0 <= a < out@.len() && 0 <= t < pool@.len() ==> out@[a].0@ != pool@[t].0@),
        decreases pool@.len(),
    {
        let mut m: usize = 0;
        let mut mkey: u32 = sort_key(pool[0].1);
        let mut j: usize = 1;
        while j < pool.len()
            invariant
                pool@.len() > 0,
                m < pool@.len(),
                j <= pool@.len(),
                mkey == key_of(pool@[m as int].1),
                forall|t: int| 0 <= t < j ==> mkey >= key_of((#[trigger] pool@[t]).1),
            decreases pool@.len() - j,
        {
            let jk = sort_key(pool[j].1);
            if jk > mkey {
                m = j;
                mkey = jk;
            }
            j += 1;
        }
        let ghost p0 = pool@;
        let ghost o0 = out@;
        proof {
            p0.remove_ensures(m as int);
        }
        let p = pool.remove(m);
        out.push(p);
        proof {
            let ghost pm = p0[m as int];
            assert(out@ == o0.push(pm));
            assert(pool@ == p0.remove(m as int));
            assert(forall|t: int|
                0 <= t < pool@.len() ==> #[trigger] pool@[t] == (if t < m as int {
                    p0[t]
                } else {
                    p0[t + 1]
                }));
            assert forall|a: int, b: int|
                0 <= a < b < out@.len() implies key_of(out@[a].1) >= key_of(out@[b].1) by {
                if b == out@.len() - 1 {
                    assert(key_of(o0[a].1) >= key_of(pm.1));
                }
            }
            assert forall|a: int, t: int|
                #![trigger out@[a], pool@[t]]
                0 <= a < out@.len() && 0 <= t < pool@.len() implies key_of(out@[a].1) >= key_of(
                pool@[t].1,
            ) by {
                if a == out@.len() - 1 {
                    assert(out@[a] == pm);
                    if t < m as int {
                        assert(key_of(pm.1) >= key_of(p0[t].1));
                    } else {
                        assert(key_of(pm.1) >= key_of(p0[t + 1].1));
                    }
                } else {
                    if t < m as int {
                        assert(key_of(o0[a].1) >= key_of(p0[t].1));
                    } else {
                        assert(key_of(o0[a].1) >= key_of(p0[t + 1].1));
                    }
                }
            }
            assert forall|a: int| 0 <= a < out@.len() implies in_seq(#[trigger] out@[a], orig) by {
                if a == out@.len() - 1 {
                    assert(in_seq(p0[m as int], orig));
                }
            }
            assert forall|j2: int|
                0 <= j2 < orig.len() implies in_seq(#[trigger] orig[j2], out@) || in_seq(
                orig[j2],
                pool@,
            ) by {
                if in_seq(orig[j2], o0) {
                    let a = choose|a: int| 0 <= a < o0.len() && o0[a] == orig[j2];
                    assert(out@[a] == orig[j2]);
                } else if in_seq(orig[j2], p0) {
                    let t = choose|t: int| 0 <= t < p0.len() && p0[t] == orig[j2];
                    if t == m as int {
                        assert(out@[out@.len() - 1] == orig[j2]);
                    } else if t < m as int {
                        assert(pool@[t] == orig[j2]);
                    } else {
                        assert(pool@[t - 1] == orig[j2]);
                    }
                }
            }
            if distinct_ids(orig) {
                assert(distinct_ids(out@)) by {
                    assert forall|a: int, b: int|
                        0 <= a < b < out@.len() implies out@[a].0@ != out@[b].0@ by {
                        if b == out@.len() - 1 {
                            assert(o0[a].0@ != p0[m as int].0@);
                        }
                    }
                }
                assert(distinct_ids(pool@)) by {
                    assert forall|a: int, b: int|
                        0 <= a < b < pool@.len() implies pool@[a].0@ != pool@[b].0@ by {
                        let a0: int = if a < m as int {
                            a
                        } else {
                            a + 1
                        };
                        let b0: int = if b < m as int {
                            b
                        } else {
                            b + 1
                        };
                        assert(pool@[a] == p0[a0] && pool@[b] == p0[b0]);
                        assert(p0[a0].0@ != p0[b0].0@);
                    }
                }
                assert forall|a: int, t: int|
                    #![trigger out@[a], pool@[t]]
                    0 <= a < out@.len() && 0 <= t < pool@.len() implies out@[a].0@ != pool@[t].0@ by {
                    let t0: int = if t < m as int {
                        t
                    } else {
                        t + 1
                    };
                    assert(pool@[t] == p0[t0]);
                    if a == out@.len() - 1 {
                        assert(out@[a] == p0[m as int]);
                        if t0 < m as int {
                            assert(p0[t0].0@ != p0[m as int].0@);
                        } else {
                            assert(p0[m as int].0@ != p0[t0].0@);
                        }
                    } else {
                        assert(o0[a].0@ != p0[t0].0@);
                    }
                }
            }
        }
    }
    proof {
        assert(ranked(orig, k as int, out@)) by {
            assert forall|j: int|
                0 <= j < orig.len() && out@.len() > 0 && !in_seq(#[trigger] orig[j], out@)
                implies key_of(orig[j].1) <= key_of(out@[out@.len() - 1].1) by {
                assert(in_seq(orig[j], pool@));
                let t = choose|t: int| 0 <= t < pool@.len() && pool@[t] == orig[j];
                assert(key_of(out@[out@.len() - 1].1) >= key_of(pool@[t].1));
            }
        }
    }
    out
}

} // verus!
