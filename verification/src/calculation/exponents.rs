//! The symbolic part of a fraction: the powers of named constants that it
//! is multiplied by, listed in the order of the constants.

use vstd::prelude::*;
use crate::symbols::constants::{
    constant_rank,
    lemma_constant_rank_injective,
    rank_of,
    Constant,
};

verus! {

/// The powers held by a list of entries, with exponents as integers.
pub open spec fn exponents_of(entries: Seq<(Constant, i32)>) -> Seq<(Constant, int)> {
    entries.map_values(|p: (Constant, i32)| (p.0, p.1 as int))
}

/// The exponent that `powers` gives to `constant`: the sum over its
/// entries for that constant, and so 0 where it has none.
pub open spec fn exponent_of(powers: Seq<(Constant, int)>, constant: Constant) -> int
    decreases powers.len(),
{
    if powers.len() == 0 {
        0
    } else {
        (if powers.first().0 == constant {
            powers.first().1
        } else {
            0
        }) + exponent_of(powers.drop_first(), constant)
    }
}

/// The entries stand in the strict order of their constants, so that no
/// constant occurs twice, and none has the exponent 0.
pub open spec fn well_formed(powers: Seq<(Constant, int)>) -> bool {
    &&& forall|i: int, j: int|
        0 <= i < j < powers.len() ==> constant_rank(#[trigger] powers[i].0) < constant_rank(
            #[trigger] powers[j].0,
        )
    &&& forall|i: int| 0 <= i < powers.len() ==> (#[trigger] powers[i]).1 != 0
}

/// Every exponent fits in 32 bits.
pub open spec fn exponents_fit(powers: Seq<(Constant, int)>) -> bool {
    forall|i: int| 0 <= i < powers.len() ==> i32::MIN <= (#[trigger] powers[i]).1 <= i32::MAX
}

/// The powers of a product: the exponents of `a` and `b` added constant
/// by constant, and a constant left out where its exponents cancel.
pub open spec fn merged(a: Seq<(Constant, int)>, b: Seq<(Constant, int)>) -> Seq<(Constant, int)>
    decreases a.len() + b.len(),
{
    if a.len() == 0 {
        b
    } else if b.len() == 0 {
        a
    } else if constant_rank(a.first().0) < constant_rank(b.first().0) {
        seq![a.first()] + merged(a.drop_first(), b)
    } else if constant_rank(b.first().0) < constant_rank(a.first().0) {
        seq![b.first()] + merged(a, b.drop_first())
    } else if a.first().1 + b.first().1 == 0 {
        merged(a.drop_first(), b.drop_first())
    } else {
        seq![(a.first().0, a.first().1 + b.first().1)] + merged(a.drop_first(), b.drop_first())
    }
}

/// The powers of a reciprocal: every exponent negated.
pub open spec fn inverted(powers: Seq<(Constant, int)>) -> Seq<(Constant, int)> {
    powers.map_values(|p: (Constant, int)| (p.0, -p.1))
}

/// The exponent of a constant in front of a list adds to that of the rest.
pub proof fn lemma_exponent_of_concat(
    a: Seq<(Constant, int)>,
    b: Seq<(Constant, int)>,
    constant: Constant,
)
    ensures
        exponent_of(a + b, constant) == exponent_of(a, constant) + exponent_of(b, constant),
    decreases a.len(),
{
    if a.len() == 0 {
        assert(a + b == b);
    } else {
        assert((a + b).drop_first() == a.drop_first() + b);
        lemma_exponent_of_concat(a.drop_first(), b, constant);
    }
}

/// A single entry gives its exponent to its own constant and 0 to every
/// other.
pub proof fn lemma_exponent_of_single(entry: (Constant, int), constant: Constant)
    ensures
        exponent_of(seq![entry], constant) == if entry.0 == constant {
            entry.1
        } else {
            0
        },
{
    assert(seq![entry].drop_first() == Seq::<(Constant, int)>::empty());
    assert(exponent_of(Seq::<(Constant, int)>::empty(), constant) == 0);
    assert(seq![entry].first() == entry);
}

/// In a product every constant has the sum of the exponents that it has
/// in the factors.
pub proof fn lemma_merged_adds_exponents(
    a: Seq<(Constant, int)>,
    b: Seq<(Constant, int)>,
    constant: Constant,
)
    ensures
        exponent_of(merged(a, b), constant) == exponent_of(a, constant) + exponent_of(
            b,
            constant,
        ),
    decreases a.len() + b.len(),
{
    if a.len() == 0 || b.len() == 0 {
    } else if constant_rank(a.first().0) < constant_rank(b.first().0) {
        lemma_merged_adds_exponents(a.drop_first(), b, constant);
        lemma_exponent_of_concat(seq![a.first()], merged(a.drop_first(), b), constant);
        lemma_exponent_of_single(a.first(), constant);
    } else if constant_rank(b.first().0) < constant_rank(a.first().0) {
        lemma_merged_adds_exponents(a, b.drop_first(), constant);
        lemma_exponent_of_concat(seq![b.first()], merged(a, b.drop_first()), constant);
        lemma_exponent_of_single(b.first(), constant);
    } else {
        lemma_constant_rank_injective(a.first().0, b.first().0);
        lemma_merged_adds_exponents(a.drop_first(), b.drop_first(), constant);
        if a.first().1 + b.first().1 != 0 {
            let head = (a.first().0, a.first().1 + b.first().1);
            lemma_exponent_of_concat(
                seq![head],
                merged(a.drop_first(), b.drop_first()),
                constant,
            );
            lemma_exponent_of_single(head, constant);
        }
    }
}

/// Every constant of a product comes from one of the factors: the first
/// constant of the product is not before the first constants of both.
proof fn lemma_merged_first(a: Seq<(Constant, int)>, b: Seq<(Constant, int)>, bound: nat)
    requires
        well_formed(a),
        well_formed(b),
        forall|i: int| 0 <= i < a.len() ==> bound <= constant_rank(#[trigger] a[i].0),
        forall|i: int| 0 <= i < b.len() ==> bound <= constant_rank(#[trigger] b[i].0),
    ensures
        forall|i: int|
            0 <= i < merged(a, b).len() ==> bound <= constant_rank(#[trigger] merged(a, b)[i].0),
        well_formed(merged(a, b)),
    decreases a.len() + b.len(),
{
    if a.len() == 0 || b.len() == 0 {
    } else {
        let ra = constant_rank(a.first().0);
        let rb = constant_rank(b.first().0);
        let a1 = a.drop_first();
        let b1 = b.drop_first();
        assert forall|i: int| 0 <= i < a1.len() implies ra + 1 <= constant_rank(
            #[trigger] a1[i].0,
        ) by {
            assert(a1[i] == a[i + 1]);
            assert(constant_rank(a[0].0) < constant_rank(a[i + 1].0));
        }
        assert forall|i: int| 0 <= i < b1.len() implies rb + 1 <= constant_rank(
            #[trigger] b1[i].0,
        ) by {
            assert(b1[i] == b[i + 1]);
            assert(constant_rank(b[0].0) < constant_rank(b[i + 1].0));
        }
        assert(well_formed(a1)) by {
            assert forall|i: int, j: int| 0 <= i < j < a1.len() implies constant_rank(
                #[trigger] a1[i].0,
            ) < constant_rank(#[trigger] a1[j].0) by {
                assert(a1[i] == a[i + 1] && a1[j] == a[j + 1]);
            }
            assert forall|i: int| 0 <= i < a1.len() implies (#[trigger] a1[i]).1 != 0 by {
                assert(a1[i] == a[i + 1]);
            }
        }
        assert(well_formed(b1)) by {
            assert forall|i: int, j: int| 0 <= i < j < b1.len() implies constant_rank(
                #[trigger] b1[i].0,
            ) < constant_rank(#[trigger] b1[j].0) by {
                assert(b1[i] == b[i + 1] && b1[j] == b[j + 1]);
            }
            assert forall|i: int| 0 <= i < b1.len() implies (#[trigger] b1[i]).1 != 0 by {
                assert(b1[i] == b[i + 1]);
            }
        }
        assert(bound <= ra && bound <= rb) by {
            assert(a[0] == a.first() && b[0] == b.first());
        }
        assert(a.first().1 != 0 && b.first().1 != 0) by {
            assert(a[0] == a.first() && b[0] == b.first());
        }
        if ra < rb {
            assert forall|i: int| 0 <= i < b.len() implies ra + 1 <= constant_rank(
                #[trigger] b[i].0,
            ) by {
                if i > 0 {
                    assert(constant_rank(b[0].0) < constant_rank(b[i].0));
                }
            }
            lemma_merged_first(a1, b, ra + 1);
            lemma_cons_well_formed(a.first(), merged(a1, b));
        } else if rb < ra {
            assert forall|i: int| 0 <= i < a.len() implies rb + 1 <= constant_rank(
                #[trigger] a[i].0,
            ) by {
                if i > 0 {
                    assert(constant_rank(a[0].0) < constant_rank(a[i].0));
                }
            }
            lemma_merged_first(a, b1, rb + 1);
            lemma_cons_well_formed(b.first(), merged(a, b1));
        } else {
            lemma_merged_first(a1, b1, ra + 1);
            if a.first().1 + b.first().1 != 0 {
                lemma_cons_well_formed(
                    (a.first().0, a.first().1 + b.first().1),
                    merged(a1, b1),
                );
            }
        }
    }
}

/// An entry in front of a list whose constants all come after its own
/// keeps the list well formed.
proof fn lemma_cons_well_formed(head: (Constant, int), rest: Seq<(Constant, int)>)
    requires
        well_formed(rest),
        head.1 != 0,
        forall|i: int|
            0 <= i < rest.len() ==> constant_rank(head.0) + 1 <= constant_rank(
                #[trigger] rest[i].0,
            ),
    ensures
        well_formed(seq![head] + rest),
        forall|i: int|
            0 <= i < (seq![head] + rest).len() ==> constant_rank(head.0) <= constant_rank(
                #[trigger] (seq![head] + rest)[i].0,
            ),
{
    let s = seq![head] + rest;
    assert forall|i: int, j: int| 0 <= i < j < s.len() implies constant_rank(
        #[trigger] s[i].0,
    ) < constant_rank(#[trigger] s[j].0) by {
        assert(s[j] == rest[j - 1]);
        if i > 0 {
            assert(s[i] == rest[i - 1]);
        }
    }
    assert forall|i: int| 0 <= i < s.len() implies (#[trigger] s[i]).1 != 0 by {
        if i > 0 {
            assert(s[i] == rest[i - 1]);
        }
    }
    assert forall|i: int| 0 <= i < s.len() implies constant_rank(head.0) <= constant_rank(
        #[trigger] s[i].0,
    ) by {
        if i > 0 {
            assert(s[i] == rest[i - 1]);
        }
    }
}

/// The product of well-formed powers is well formed: it lists every
/// constant once, in order, and none with the exponent 0.
pub proof fn lemma_merged_well_formed(a: Seq<(Constant, int)>, b: Seq<(Constant, int)>)
    requires
        well_formed(a),
        well_formed(b),
    ensures
        well_formed(merged(a, b)),
{
    lemma_merged_first(a, b, 0);
}

/// The reciprocal of well-formed powers is well formed.
pub proof fn lemma_inverted_well_formed(powers: Seq<(Constant, int)>)
    requires
        well_formed(powers),
    ensures
        well_formed(inverted(powers)),
{
}

/// Merges the powers of two factors into those of their product. No
/// result where an exponent of the product does not fit in 32 bits.
pub fn merge_constants(a_consts: &Vec<(Constant, i32)>, b_consts: &Vec<(Constant, i32)>) -> (consts:
    Option<Vec<(Constant, i32)>>)
    ensures
        match consts {
            Some(powers) => exponents_of(powers@) == merged(
                exponents_of(a_consts@),
                exponents_of(b_consts@),
            ),
            None => !exponents_fit(merged(exponents_of(a_consts@), exponents_of(b_consts@))),
        },
{
    let ghost a = exponents_of(a_consts@);
    let ghost b = exponents_of(b_consts@);
    let mut consts: Vec<(Constant, i32)> = Vec::new();
    let mut i: usize = 0;
    let mut j: usize = 0;
    assert(a.subrange(0, a.len() as int) == a);
    assert(b.subrange(0, b.len() as int) == b);
    assert(exponents_of(consts@) + merged(a, b) == merged(a, b));
    while i < a_consts.len() && j < b_consts.len()
        invariant
            i <= a_consts.len(),
            j <= b_consts.len(),
            a == exponents_of(a_consts@),
            b == exponents_of(b_consts@),
            exponents_of(consts@) + merged(
                a.subrange(i as int, a.len() as int),
                b.subrange(j as int, b.len() as int),
            ) == merged(a, b),
        decreases a_consts.len() - i + b_consts.len() - j,
    {
        let (a_constant, a_count) = a_consts[i];
        let (b_constant, b_count) = b_consts[j];
        let ghost a_rest = a.subrange(i as int, a.len() as int);
        let ghost b_rest = b.subrange(j as int, b.len() as int);
        let ghost done = exponents_of(consts@);
        proof {
            assert(a_rest.first() == (a_constant, a_count as int));
            assert(b_rest.first() == (b_constant, b_count as int));
            assert(a_rest.drop_first() == a.subrange(i + 1, a.len() as int));
            assert(b_rest.drop_first() == b.subrange(j + 1, b.len() as int));
        }
        let a_rank = rank_of(a_constant);
        let b_rank = rank_of(b_constant);
        if a_rank < b_rank {
            consts.push((a_constant, a_count));
            i += 1;
            proof {
                let rest = merged(a_rest.drop_first(), b_rest);
                assert(exponents_of(consts@) == done + seq![(a_constant, a_count as int)]);
                assert(done + seq![(a_constant, a_count as int)] + rest == done + (seq![
                    (a_constant, a_count as int),
                ] + rest));
            }
        } else if b_rank < a_rank {
            consts.push((b_constant, b_count));
            j += 1;
            proof {
                let rest = merged(a_rest, b_rest.drop_first());
                assert(exponents_of(consts@) == done + seq![(b_constant, b_count as int)]);
                assert(done + seq![(b_constant, b_count as int)] + rest == done + (seq![
                    (b_constant, b_count as int),
                ] + rest));
            }
        } else {
            let count: i64 = a_count as i64 + b_count as i64;
            if count != 0 {
                if count < -0x8000_0000 || count > 0x7fff_ffff {
                    proof {
                        let all = merged(a, b);
                        let rest = merged(a_rest.drop_first(), b_rest.drop_first());
                        assert(all == done + (seq![(a_constant, count as int)] + rest));
                        assert(all[done.len() as int] == (a_constant, count as int));
                    }
                    return None;
                }
                consts.push((a_constant, count as i32));
                proof {
                    let rest = merged(a_rest.drop_first(), b_rest.drop_first());
                    assert(exponents_of(consts@) == done + seq![(a_constant, count as int)]);
                    assert(done + seq![(a_constant, count as int)] + rest == done + (seq![
                        (a_constant, count as int),
                    ] + rest));
                }
            }
            i += 1;
            j += 1;
        }
    }
    while i < a_consts.len()
        invariant
            i <= a_consts.len(),
            j <= b_consts.len(),
            i == a_consts.len() || j == b_consts.len(),
            a == exponents_of(a_consts@),
            b == exponents_of(b_consts@),
            exponents_of(consts@) + merged(
                a.subrange(i as int, a.len() as int),
                b.subrange(j as int, b.len() as int),
            ) == merged(a, b),
        decreases a_consts.len() - i,
    {
        let ghost done = exponents_of(consts@);
        let ghost a_rest = a.subrange(i as int, a.len() as int);
        let ghost a_next = a.subrange(i + 1, a.len() as int);
        let ghost none = b.subrange(j as int, b.len() as int);
        consts.push(a_consts[i]);
        proof {
            assert(exponents_of(consts@) == done + seq![a[i as int]]);
            assert(a_rest == seq![a[i as int]] + a_next);
            assert(merged(a_rest, none) == a_rest);
            assert(merged(a_next, none) == a_next);
            assert(done + seq![a[i as int]] + a_next == done + (seq![a[i as int]] + a_next));
        }
        i += 1;
    }
    while j < b_consts.len()
        invariant
            i == a_consts.len(),
            j <= b_consts.len(),
            a == exponents_of(a_consts@),
            b == exponents_of(b_consts@),
            exponents_of(consts@) + merged(
                a.subrange(i as int, a.len() as int),
                b.subrange(j as int, b.len() as int),
            ) == merged(a, b),
        decreases b_consts.len() - j,
    {
        let ghost done = exponents_of(consts@);
        let ghost b_rest = b.subrange(j as int, b.len() as int);
        let ghost b_next = b.subrange(j + 1, b.len() as int);
        let ghost none = a.subrange(i as int, a.len() as int);
        consts.push(b_consts[j]);
        proof {
            assert(exponents_of(consts@) == done + seq![b[j as int]]);
            assert(b_rest == seq![b[j as int]] + b_next);
            assert(merged(none, b_rest) == b_rest);
            assert(merged(none, b_next) == b_next);
            assert(done + seq![b[j as int]] + b_next == done + (seq![b[j as int]] + b_next));
        }
        j += 1;
    }
    assert(merged(
        a.subrange(i as int, a.len() as int),
        b.subrange(j as int, b.len() as int),
    ) == Seq::<(Constant, int)>::empty());
    assert(exponents_of(consts@) + Seq::<(Constant, int)>::empty() == exponents_of(consts@));
    Some(consts)
}

/// Negates every exponent. No result where a negated exponent does not
/// fit in 32 bits.
pub fn invert_constants(consts: &Vec<(Constant, i32)>) -> (inverse: Option<Vec<(Constant, i32)>>)
    ensures
        match inverse {
            Some(powers) => exponents_of(powers@) == inverted(exponents_of(consts@)),
            None => !exponents_fit(inverted(exponents_of(consts@))),
        },
{
    let ghost all = inverted(exponents_of(consts@));
    let mut inverse: Vec<(Constant, i32)> = Vec::new();
    let mut i: usize = 0;
    while i < consts.len()
        invariant
            i <= consts.len(),
            all == inverted(exponents_of(consts@)),
            inverse.len() == i,
            exponents_of(inverse@) == all.take(i as int),
        decreases consts.len() - i,
    {
        let (constant, count) = consts[i];
        if count == -0x8000_0000 {
            assert(all[i as int] == (constant, -(count as int)));
            return None;
        }
        let ghost before = inverse@;
        inverse.push((constant, -count));
        i += 1;
        assert forall|k: int| 0 <= k < i implies exponents_of(inverse@)[k] == all.take(
            i as int,
        )[k] by {
            if k < i - 1 {
                assert(inverse@[k] == before[k]);
                assert(exponents_of(before)[k] == all.take(i - 1)[k]);
            }
        }
        assert(exponents_of(inverse@) == all.take(i as int));
    }
    assert(all.take(i as int) == all);
    Some(inverse)
}

} // verus!
