//! Filling a width with a repeated pattern, cluster by cluster.

use crate::width::{cluster_width, cluster_widths, grapheme_clusters, split_graphemes, total_width};
use vstd::arithmetic::div_mod::lemma_fundamental_div_mod_converse;
use vstd::prelude::*;
use vstd::string::StringExecFns;

verus! {

/// The cluster at place `k` of the endless repetition of `gs`.
pub open spec fn cycled(gs: Seq<Seq<char>>, k: nat) -> Seq<char>
    recommends
        gs.len() > 0,
{
    gs[(k % gs.len()) as int]
}

/// The place in the repetition that comes after `round` whole passes over
/// `gs` and `i` clusters more.
pub open spec fn place(gs: Seq<Seq<char>>, round: nat, i: nat) -> nat {
    round * gs.len() + i
}

/// The summed width of the first `k` clusters of the endless repetition.
pub open spec fn cycle_width(gs: Seq<Seq<char>>, k: nat) -> nat
    decreases k,
{
    if k == 0 {
        0
    } else {
        cycle_width(gs, (k - 1) as nat) + cluster_width(cycled(gs, (k - 1) as nat))
    }
}

/// The first `k` clusters of the endless repetition, joined.
pub open spec fn cycle_text(gs: Seq<Seq<char>>, k: nat) -> Seq<char>
    decreases k,
{
    if k == 0 {
        Seq::empty()
    } else {
        cycle_text(gs, (k - 1) as nat) + cycled(gs, (k - 1) as nat)
    }
}

/// The first `k` clusters of the repetition fit into `width` columns, and
/// one more does not.
pub open spec fn fits(gs: Seq<Seq<char>>, width: nat, k: nat) -> bool {
    cycle_width(gs, k) <= width < cycle_width(gs, k + 1)
}

/// How many clusters of the repetition a fill of `width` columns takes.
pub open spec fn fill_count(gs: Seq<Seq<char>>, width: nat) -> nat {
    choose|k: nat| fits(gs, width, k)
}

/// How many clusters a fill of `width` columns with `pattern` holds: none
/// where the pattern is empty, the width is zero or the pattern has no
/// width at all, else as many as fit.
pub open spec fn fill_taken(pattern: Seq<char>, width: nat) -> nat {
    let gs = grapheme_clusters(pattern);
    if pattern.len() == 0 || width == 0 || total_width(gs) == 0 {
        0
    } else {
        fill_count(gs, width)
    }
}

/// What a fill of `width` columns with `pattern` holds: the longest run of
/// whole clusters from the start of the repeated pattern that fits.
pub open spec fn fill_text(pattern: Seq<char>, width: nat) -> Seq<char> {
    cycle_text(grapheme_clusters(pattern), fill_taken(pattern, width))
}

/// The columns that a fill of `width` columns with `pattern` takes: the
/// summed width of the clusters it holds.
pub open spec fn fill_columns(pattern: Seq<char>, width: nat) -> nat {
    cycle_width(grapheme_clusters(pattern), fill_taken(pattern, width))
}

/// A longer run of the repetition is never narrower.
pub proof fn lemma_cycle_width_grows(gs: Seq<Seq<char>>, j: nat, k: nat)
    requires
        j <= k,
    ensures
        cycle_width(gs, j) <= cycle_width(gs, k),
    decreases k,
{
    if j < k {
        lemma_cycle_width_grows(gs, j, (k - 1) as nat);
    }
}

/// At most one count fits a width.
pub proof fn lemma_fit_is_unique(gs: Seq<Seq<char>>, width: nat, a: nat, b: nat)
    requires
        fits(gs, width, a),
        fits(gs, width, b),
    ensures
        a == b,
{
    if a < b {
        lemma_cycle_width_grows(gs, a + 1, b);
    }
    if b < a {
        lemma_cycle_width_grows(gs, b + 1, a);
    }
}

/// The place `round * len + i` of the repetition holds cluster `i`.
pub proof fn lemma_cycled_at(gs: Seq<Seq<char>>, round: nat, i: nat)
    requires
        i < gs.len(),
    ensures
        cycled(gs, place(gs, round, i)) == gs[i as int],
{
    lemma_fundamental_div_mod_converse(
        (round * gs.len() + i) as int,
        gs.len() as int,
        round as int,
        i as int,
    );
}

/// After `round` whole passes and `i` clusters more, the width is that of
/// `round` patterns and of the pattern's first `i` clusters.
pub proof fn lemma_cycle_width_at(gs: Seq<Seq<char>>, round: nat, i: nat)
    requires
        i <= gs.len(),
        gs.len() > 0,
    ensures
        cycle_width(gs, place(gs, round, i)) == round * total_width(gs) + total_width(
            gs.take(i as int),
        ),
    decreases round, i,
{
    let n = gs.len();
    if i == 0 {
        assert(gs.take(0).len() == 0);
        if round == 0 {
            assert(round * n + i == 0) by (nonlinear_arith)
                requires
                    round == 0,
                    i == 0,
            ;
            assert(round * total_width(gs) == 0) by (nonlinear_arith)
                requires
                    round == 0,
            ;
        } else {
            let before = (round - 1) as nat;
            lemma_cycle_width_at(gs, before, n);
            assert(gs.take(n as int) =~= gs);
            assert(before * n + n == round * n + i) by (nonlinear_arith)
                requires
                    before == round - 1,
                    i == 0,
            ;
            assert(before * total_width(gs) + total_width(gs) == round * total_width(gs))
                by (nonlinear_arith)
                requires
                    before == round - 1,
            ;
        }
    } else {
        let j = (i - 1) as nat;
        lemma_cycle_width_at(gs, round, j);
        lemma_cycled_at(gs, round, j);
        assert(round * n + i - 1 == round * n + j);
        assert(gs.take(i as int).drop_last() =~= gs.take(j as int));
        assert(gs.take(i as int).last() == gs[j as int]);
    }
}

/// A pattern has no width exactly when none of its clusters has.
pub proof fn lemma_no_width(gs: Seq<Seq<char>>)
    ensures
        total_width(gs) == 0 <==> forall|i: int|
            0 <= i < gs.len() ==> cluster_width(#[trigger] gs[i]) == 0,
    decreases gs.len(),
{
    if gs.len() > 0 {
        lemma_no_width(gs.drop_last());
        assert(forall|i: int|
            0 <= i < gs.len() - 1 ==> gs.drop_last()[i] == #[trigger] gs[i]);
        if total_width(gs) == 0 {
            assert forall|i: int| 0 <= i < gs.len() implies cluster_width(#[trigger] gs[i])
                == 0 by {
                if i < gs.len() - 1 {
                    assert(gs.drop_last()[i] == gs[i]);
                }
            }
        }
        if forall|i: int| 0 <= i < gs.len() ==> cluster_width(#[trigger] gs[i]) == 0 {
            assert forall|i: int| 0 <= i < gs.drop_last().len() implies cluster_width(
                #[trigger] gs.drop_last()[i],
            ) == 0 by {
                assert(gs.drop_last()[i] == gs[i]);
            }
            assert(cluster_width(gs[gs.len() - 1]) == 0);
        }
    }
}

/// Some count fits, below any run that is too wide.
proof fn lemma_fit_below(gs: Seq<Seq<char>>, width: nat, m: nat)
    requires
        cycle_width(gs, m) > width,
    ensures
        exists|k: nat| fits(gs, width, k),
    decreases m,
{
    if m > 0 {
        let k = (m - 1) as nat;
        if cycle_width(gs, k) <= width {
            assert(fits(gs, width, k));
        } else {
            lemma_fit_below(gs, width, k);
        }
    }
}

/// A pattern with some width has a count that fits each width: the one
/// that `fill_count` names.
pub proof fn lemma_fit_exists(gs: Seq<Seq<char>>, width: nat)
    requires
        total_width(gs) > 0,
    ensures
        fits(gs, width, fill_count(gs, width)),
{
    let rounds = width + 1;
    lemma_cycle_width_at(gs, rounds, 0);
    assert(gs.take(0).len() == 0);
    assert(rounds * total_width(gs) > width) by (nonlinear_arith)
        requires
            rounds == width + 1,
            total_width(gs) > 0,
    ;
    lemma_fit_below(gs, width, place(gs, rounds, 0));
}

/// No run of the repetition of a pattern without width has any width.
pub proof fn lemma_cycle_without_width(gs: Seq<Seq<char>>, k: nat)
    requires
        gs.len() > 0,
        total_width(gs) == 0,
    ensures
        cycle_width(gs, k) == 0,
    decreases k,
{
    if k > 0 {
        lemma_cycle_without_width(gs, (k - 1) as nat);
        lemma_no_width(gs);
        let at = ((k - 1) as nat % gs.len()) as int;
        assert(cluster_width(gs[at]) == 0);
    }
}

/// A fill of a pattern that has a cluster never takes more than the width
/// it was given, and no run of whole clusters from the start of the
/// repeated pattern that fits into that width is wider. Where the pattern
/// has some width and the width given is not zero, none is longer either.
pub proof fn lemma_fill_is_widest_fit(pattern: Seq<char>, width: nat, k: nat)
    requires
        pattern.len() > 0,
        grapheme_clusters(pattern).len() > 0,
    ensures
        fill_columns(pattern, width) <= width,
        cycle_width(grapheme_clusters(pattern), k) <= width ==> cycle_width(
            grapheme_clusters(pattern),
            k,
        ) <= fill_columns(pattern, width),
        total_width(grapheme_clusters(pattern)) > 0 && width > 0 && cycle_width(
            grapheme_clusters(pattern),
            k,
        ) <= width ==> k <= fill_taken(pattern, width),
{
    let gs = grapheme_clusters(pattern);
    if total_width(gs) == 0 {
        lemma_cycle_without_width(gs, k);
    } else if width > 0 {
        lemma_fit_exists(gs, width);
        let taken = fill_count(gs, width);
        if cycle_width(gs, k) <= width {
            if k > taken {
                lemma_cycle_width_grows(gs, taken + 1, k);
            }
            lemma_cycle_width_grows(gs, k, taken);
        }
    }
}

/// A fill with the empty pattern holds nothing, whatever the width.
pub proof fn lemma_empty_pattern_fills_nothing(width: nat)
    ensures
        fill_text(Seq::empty(), width) == Seq::<char>::empty(),
        fill_columns(Seq::empty(), width) == 0,
{
}

/// Whether any of the widths is not zero.
fn has_width(widths: &Vec<usize>) -> (r: bool)
    ensures
        r <==> exists|i: int| 0 <= i < widths.len() && widths[i] != 0,
{
    let mut i: usize = 0;
    while i < widths.len()
        invariant
            i <= widths.len(),
            forall|j: int| 0 <= j < i ==> widths[j] == 0,
        decreases widths.len() - i,
    {
        if widths[i] != 0 {
            return true;
        }
        i += 1;
    }
    false
}

/// Repeats `pattern` into at most `width` columns: whole grapheme clusters
/// of the repeated pattern, as many as fit, with nothing added after them.
/// The result is empty where the pattern is empty, where the width is zero,
/// and where no cluster of the pattern has any width.
pub fn fill_to_width(pattern: &str, width: usize) -> (out: String)
    ensures
        out@ == fill_text(pattern@, width as nat),
        fill_columns(pattern@, width as nat) <= width,
        pattern@.len() == 0 ==> out@.len() == 0,
        width == 0 ==> out@.len() == 0,
{
    let mut out = String::new();
    if pattern.is_empty() || width == 0 {
        return out;
    }
    let clusters = split_graphemes(pattern);
    let widths = cluster_widths(&clusters);
    let ghost gs = grapheme_clusters(pattern@);
    let n: usize = clusters.len();
    proof {
        lemma_no_width(gs);
    }
    if !has_width(&widths) {
        proof {
            assert forall|i: int| 0 <= i < gs.len() implies cluster_width(#[trigger] gs[i])
                == 0 by {
                assert(widths[i] == 0);
                assert(clusters[i]@ == gs[i]);
            }
        }
        return out;
    }
    let mut used: usize = 0;
    let ghost mut round: nat = 0;
    proof {
        let j = choose|j: int| 0 <= j < widths.len() && widths[j] != 0;
        assert(cluster_width(gs[j]) != 0);
        assert(place(gs, round, 0) == 0) by (nonlinear_arith)
            requires
                round == 0,
                place(gs, round, 0) == round * gs.len() + 0,
        ;
    }
    loop
        invariant
            n == clusters.len(),
            n == gs.len(),
            n == widths.len(),
            n > 0,
            total_width(gs) > 0,
            width > 0,
            gs == grapheme_clusters(pattern@),
            pattern@.len() > 0,
            forall|j: int| 0 <= j < n ==> (#[trigger] clusters[j])@ == gs[j],
            forall|j: int| 0 <= j < n ==> #[trigger] widths[j] == cluster_width(gs[j]),
            used <= width,
            used == cycle_width(gs, place(gs, round, 0)),
            out@ == cycle_text(gs, place(gs, round, 0)),
        decreases width - used,
    {
        let ghost start = used;
        let mut i: usize = 0;
        while i < n
            invariant
                n == clusters.len(),
                n == gs.len(),
                n == widths.len(),
                total_width(gs) > 0,
                width > 0,
                gs == grapheme_clusters(pattern@),
                pattern@.len() > 0,
                forall|j: int| 0 <= j < n ==> (#[trigger] clusters[j])@ == gs[j],
                forall|j: int| 0 <= j < n ==> #[trigger] widths[j] == cluster_width(gs[j]),
                i <= n,
                used <= width,
                used == cycle_width(gs, place(gs, round, i as nat)),
                out@ == cycle_text(gs, place(gs, round, i as nat)),
                start == cycle_width(gs, place(gs, round, 0)),
            decreases n - i,
        {
            let w = widths[i];
            proof {
                lemma_cycled_at(gs, round, i as nat);
            }
            if w > width - used {
                proof {
                    let k = place(gs, round, i as nat);
                    assert(fits(gs, width as nat, k));
                    lemma_fit_exists(gs, width as nat);
                    lemma_fit_is_unique(gs, width as nat, k, fill_count(gs, width as nat));
                }
                return out;
            }
            used = used + w;
            out.append(clusters[i].as_str());
            i += 1;
        }
        proof {
            lemma_cycle_width_at(gs, round, 0);
            lemma_cycle_width_at(gs, round, n as nat);
            assert(gs.take(0).len() == 0);
            assert(gs.take(n as int) =~= gs);
            assert(place(gs, round, n as nat) == place(gs, round + 1, 0)) by (nonlinear_arith)
                requires
                    n == gs.len(),
                    place(gs, round, n as nat) == round * gs.len() + n,
                    place(gs, round + 1, 0) == (round + 1) * gs.len() + 0,
            ;
            round = round + 1;
        }
    }
}

} // verus!
