use vstd::prelude::*;
use vstd::arithmetic::power2::{lemma2_to64, lemma_pow2_unfold, pow2};

verus! {

/// In how many ways `k` of `n` things can be chosen.
pub open spec fn binomial(n: nat, k: nat) -> nat
    decreases n,
{
    if k == 0 {
        1
    } else if n == 0 {
        0
    } else {
        binomial((n - 1) as nat, (k - 1) as nat) + binomial((n - 1) as nat, k)
    }
}

/// More than all cannot be chosen, and all can be chosen in one way.
pub proof fn lemma_binomial_edges(n: nat, k: nat)
    ensures
        k > n ==> binomial(n, k) == 0,
        binomial(n, n) == 1,
        binomial(n, 1) == n,
    decreases n,
{
    if n > 0 {
        let m = (n - 1) as nat;
        lemma_binomial_edges(m, k);
        lemma_binomial_edges(m, (k - 1) as nat);
        lemma_binomial_edges(m, n);
        lemma_binomial_edges(m, m);
        lemma_binomial_edges(m, 1);
        assert(binomial(m, 0) == 1);
        assert(binomial(n, 1) == binomial(m, 0) + binomial(m, 1));
        assert(binomial(n, n) == binomial(m, m) + binomial(m, n));
    }
}

/// There is a way to choose no more than all.
pub proof fn lemma_binomial_positive(n: nat, k: nat)
    requires
        k <= n,
    ensures
        binomial(n, k) >= 1,
    decreases n,
{
    if n > 0 && k > 0 {
        lemma_binomial_positive((n - 1) as nat, (k - 1) as nat);
    }
}

/// To choose `k` of `n` is to choose the `n - k` that are left out.
pub proof fn lemma_binomial_symmetry(n: nat, k: nat)
    requires
        k <= n,
    ensures
        binomial(n, k) == binomial(n, (n - k) as nat),
    decreases n,
{
    if n == 0 || k == 0 || k == n {
        lemma_binomial_edges(n, k);
    } else {
        lemma_binomial_symmetry((n - 1) as nat, (k - 1) as nat);
        lemma_binomial_symmetry((n - 1) as nat, k);
    }
}

/// Choosing one more: `(k + 1) * binomial(n, k + 1) == (n - k) * binomial(n, k)`.
pub proof fn lemma_binomial_step(n: nat, k: nat)
    requires
        k <= n,
    ensures
        (k + 1) * binomial(n, k + 1) == (n - k) * binomial(n, k),
    decreases n,
{
    if n == 0 {
        assert(binomial(0, 1) == 0);
        assert(binomial(0, 0) == 1);
    } else if k == n {
        lemma_binomial_edges(n, k + 1);
        assert(binomial(n, k + 1) == 0);
        assert((k + 1) * 0 == 0 * binomial(n, k)) by (nonlinear_arith);
    } else if k == 0 {
        lemma_binomial_edges(n, 1);
        assert(binomial(n, 0) == 1);
        assert(1 * n == n * 1) by (nonlinear_arith);
    } else {
        let m = (n - 1) as nat;
        lemma_binomial_step(m, k);
        lemma_binomial_step(m, (k - 1) as nat);
        let a = binomial(m, (k - 1) as nat);
        let b = binomial(m, k);
        let c = binomial(m, k + 1);
        assert(binomial(n, k) == a + b);
        assert(binomial(n, k + 1) == b + c);
        assert((k + 1) * (b + c) == (n - k) * (a + b)) by (nonlinear_arith)
            requires
                (k + 1) * c == (m - k) * b,
                k * b == (m - (k - 1)) * a,
                m == n - 1,
        ;
    }
}

/// There are at most `2^n` ways to choose of `n` things, and at most half as
/// many to choose a given number of them.
pub proof fn lemma_binomial_bound(n: nat, k: nat)
    ensures
        binomial(n, k) <= pow2(n),
        n >= 1 ==> 2 * binomial(n, k) <= pow2(n),
    decreases n,
{
    lemma2_to64();
    if n == 0 {
    } else {
        lemma_pow2_unfold(n);
        lemma_binomial_bound((n - 1) as nat, k);
        lemma_binomial_bound((n - 1) as nat, (k - 1) as nat);
        if n == 1 {
            lemma_binomial_edges(0, k);
        } else {
            lemma_pow2_unfold((n - 1) as nat);
        }
    }
}

/// The number of ways to choose `selected` of `total` things.
pub fn number_of_choices(total: u8, selected: u8) -> (r: usize)
    requires
        selected <= total <= 32,
    ensures
        r == binomial(total as nat, selected as nat),
{
    proof {
        lemma_binomial_symmetry(total as nat, selected as nat);
    }
    let selected: u8 = if selected <= total - selected {
        selected
    } else {
        total - selected
    };
    let mut result: u64 = 1;
    let mut i: u8 = 0;
    while i < selected
        invariant
            i <= selected <= total <= 32,
            result == binomial(total as nat, i as nat),
        decreases selected - i,
    {
        proof {
            lemma_binomial_step(total as nat, i as nat);
            lemma_binomial_bound(total as nat, i as nat);
            lemma_binomial_bound(total as nat, (i + 1) as nat);
            lemma2_to64();
            vstd::arithmetic::power2::lemma_pow2_strictly_increases(total as nat, 33);
            let next = binomial(total as nat, (i + 1) as nat);
            assert(result * (total - i) <= 0x1_0000_0000 * 32) by (nonlinear_arith)
                requires
                    result <= 0x1_0000_0000,
                    0 <= total - i <= 32,
            ;
            assert((result * (total - i)) / ((i + 1) as int) == next) by (nonlinear_arith)
                requires
                    (i + 1) * next == (total - i) * result,
                    i + 1 > 0,
            ;
        }
        result = result * ((total - i) as u64) / ((i + 1) as u64);
        i += 1;
    }
    proof {
        lemma_binomial_bound(total as nat, selected as nat);
        lemma2_to64();
        if total >= 1 {
            vstd::arithmetic::power2::lemma_pow2_strictly_increases(total as nat, 33);
        }
    }
    result as usize
}

/// A choice of `selected` of the numbers below `total`: the numbers from the
/// least to the greatest.
pub open spec fn is_choice(choice: Seq<usize>, total: nat, selected: nat) -> bool {
    &&& choice.len() == selected
    &&& forall|i: int| 0 <= i < choice.len() ==> #[trigger] choice[i] < total
    &&& forall|i: int, j: int|
        0 <= i < j < choice.len() ==> #[trigger] choice[i] < #[trigger] choice[j]
}

/// The number of choices of `rest + 1` numbers whose greatest is below `bound`.
pub open spec fn choices_ending_below(bound: nat, rest: nat) -> nat
    decreases bound,
{
    if bound == 0 {
        0
    } else {
        choices_ending_below((bound - 1) as nat, rest) + binomial((bound - 1) as nat, rest)
    }
}

/// The choices of `rest + 1` numbers below a bound, counted by their
/// greatest number, are all choices of that many numbers below the bound.
pub proof fn lemma_choices_by_greatest(bound: nat, rest: nat)
    ensures
        choices_ending_below(bound, rest) == binomial(bound, rest + 1),
    decreases bound,
{
    if bound > 0 {
        lemma_choices_by_greatest((bound - 1) as nat, rest);
    }
}

/// The choice is one of the list.
pub open spec fn is_listed(list: Seq<Vec<usize>>, choice: Seq<usize>) -> bool {
    exists|i: int| 0 <= i < list.len() && (#[trigger] list[i])@ == choice
}

/// What is listed stays listed when the list grows at its end.
pub proof fn lemma_stays_listed(list: Seq<Vec<usize>>, longer: Seq<Vec<usize>>, choice: Seq<usize>)
    requires
        is_listed(list, choice),
        list.len() <= longer.len(),
        forall|i: int| 0 <= i < list.len() ==> list[i] == longer[i],
    ensures
        is_listed(longer, choice),
{
    let i = choose|i: int| 0 <= i < list.len() && (#[trigger] list[i])@ == choice;
    assert(longer[i]@ == choice);
}

/// All choices of `selected` of the numbers below `total`, those with the
/// smaller greatest number first, none of them twice and none missing.
pub fn all_choices(total: u8, selected: u8) -> (r: Vec<Vec<usize>>)
    requires
        total <= 32,
    ensures
        r@.len() == binomial(total as nat, selected as nat),
        forall|i: int|
            0 <= i < r@.len() ==> is_choice((#[trigger] r@[i])@, total as nat, selected as nat),
        forall|i: int, j: int|
            0 <= i < j < r@.len() ==> (#[trigger] r@[i])@ != (#[trigger] r@[j])@,
        forall|choice: Seq<usize>| #[trigger]
            is_choice(choice, total as nat, selected as nat) ==> is_listed(r@, choice),
    decreases selected,
{
    if selected == 0 {
        let mut result: Vec<Vec<usize>> = Vec::new();
        result.push(Vec::new());
        proof {
            assert forall|choice: Seq<usize>| #[trigger]
                is_choice(choice, total as nat, selected as nat) implies is_listed(
                result@,
                choice,
            ) by {
                assert(choice =~= result@[0]@);
            }
        }
        return result;
    }
    let rest_selected = selected - 1;

    let mut result: Vec<Vec<usize>> = Vec::new();

    let mut last_selection: u8 = 0;
    while last_selection < total
        invariant
            last_selection <= total <= 32,
            rest_selected + 1 == selected,
            result@.len() == choices_ending_below(last_selection as nat, rest_selected as nat),
            forall|i: int|
                0 <= i < result@.len() ==> is_choice(
                    (#[trigger] result@[i])@,
                    total as nat,
                    selected as nat,
                ),
            forall|i: int|
                0 <= i < result@.len() ==> (#[trigger] result@[i])@.last() < last_selection,
            forall|i: int, j: int|
                0 <= i < j < result@.len() ==> (#[trigger] result@[i])@ != (#[trigger] result@[j])@,
            forall|choice: Seq<usize>| #[trigger]
                is_choice(choice, total as nat, selected as nat) && choice.last() < last_selection
                    ==> is_listed(result@, choice),
        decreases total - last_selection,
    {
        let previous = all_choices(last_selection, rest_selected);
        let ghost before = result@.len();
        let mut taken: usize = 0;
        while taken < previous.len()
            invariant
                taken <= previous@.len(),
                last_selection < total <= 32,
                rest_selected + 1 == selected,
                result@.len() == before + taken,
                forall|i: int|
                    0 <= i < previous@.len() ==> is_choice(
                        (#[trigger] previous@[i])@,
                        last_selection as nat,
                        rest_selected as nat,
                    ),
                forall|i: int|
                    0 <= i < result@.len() ==> is_choice(
                        (#[trigger] result@[i])@,
                        total as nat,
                        selected as nat,
                    ),
                forall|i: int, j: int|
                    0 <= i < j < previous@.len() ==> (#[trigger] previous@[i])@ != (
                    #[trigger] previous@[j])@,
                forall|i: int| 0 <= i < before ==> (#[trigger] result@[i])@.last() < last_selection,
                forall|i: int|
                    before <= i < result@.len() ==> (#[trigger] result@[i])@ == previous@[i
                        - before]@.push(last_selection as usize),
                forall|i: int, j: int|
                    0 <= i < j < result@.len() ==> (#[trigger] result@[i])@ != (
                    #[trigger] result@[j])@,
                forall|choice: Seq<usize>| #[trigger]
                    is_choice(choice, total as nat, selected as nat) && choice.last()
                        < last_selection ==> is_listed(result@, choice),
                forall|choice: Seq<usize>| #[trigger]
                    is_choice(choice, last_selection as nat, rest_selected as nat) ==> is_listed(
                        previous@,
                        choice,
                    ),
            decreases previous@.len() - taken,
        {
            let previous_choices = &previous[taken];
            let mut choice: Vec<usize> = Vec::new();
            let mut copied: usize = 0;
            while copied < previous_choices.len()
                invariant
                    copied <= previous_choices@.len(),
                    choice@ == previous_choices@.take(copied as int),
                decreases previous_choices@.len() - copied,
            {
                choice.push(previous_choices[copied]);
                proof {
                    assert(previous_choices@.take(copied + 1) =~= previous_choices@.take(
                        copied as int,
                    ).push(previous_choices@[copied as int]));
                }
                copied += 1;
            }
            proof {
                assert(previous_choices@.take(copied as int) =~= previous_choices@);
            }
            choice.push(last_selection as usize);
            proof {
                assert(is_choice(previous_choices@, last_selection as nat, rest_selected as nat));
                assert(is_choice(choice@, total as nat, selected as nat));
            }
            let ghost listed = result@;
            let ghost added = choice@;
            result.push(choice);
            proof {
                assert forall|i: int, j: int| 0 <= i < j < result@.len() implies (
                #[trigger] result@[i])@ != (#[trigger] result@[j])@ by {
                    if j == listed.len() {
                        assert(result@[j]@ == added);
                        assert(result@[i] == listed[i]);
                        if i >= before {
                            let earlier = previous@[i - before]@;
                            assert(earlier.push(last_selection as usize).drop_last() =~= earlier);
                            assert(added.drop_last() =~= previous_choices@);
                        }
                    } else {
                        assert(result@[i] == listed[i] && result@[j] == listed[j]);
                    }
                }
                assert forall|choice: Seq<usize>| #[trigger]
                    is_choice(choice, total as nat, selected as nat) && choice.last()
                        < last_selection implies is_listed(result@, choice) by {
                    lemma_stays_listed(listed, result@, choice);
                }
            }
            taken += 1;
        }
        proof {
            assert forall|choice: Seq<usize>| #[trigger]
                is_choice(choice, total as nat, selected as nat) && choice.last() < last_selection
                    + 1 implies is_listed(result@, choice) by {
                if choice.last() == last_selection {
                    let rest = choice.drop_last();
                    assert forall|i: int| 0 <= i < rest.len() implies #[trigger] rest[i]
                        < last_selection by {
                        assert(choice[i] < choice[choice.len() - 1]);
                    }
                    assert(is_choice(rest, last_selection as nat, rest_selected as nat));
                    let j = choose|j: int| 0 <= j < previous@.len() && (#[trigger] previous@[j])@ == rest;
                    assert(result@[before + j]@ == previous@[before + j - before]@.push(
                        last_selection as usize,
                    ));
                    assert(choice =~= rest.push(last_selection as usize));
                }
            }
        }
        last_selection += 1;
    }
    proof {
        lemma_choices_by_greatest(total as nat, rest_selected as nat);
        assert forall|choice: Seq<usize>| #[trigger]
            is_choice(choice, total as nat, selected as nat) implies is_listed(result@, choice) by {
            assert(choice[choice.len() - 1] < total);
        }
    }
    result
}

} // verus!
