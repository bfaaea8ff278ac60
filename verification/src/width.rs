//! Display width: the number of terminal columns that text takes, counted
//! grapheme cluster by grapheme cluster.

use unicode_segmentation::UnicodeSegmentation;
use unicode_width::UnicodeWidthChar;
use vstd::prelude::*;

verus! {

/// The extended grapheme clusters of a string, in order, as
/// `unicode_segmentation` finds them.
pub uninterp spec fn grapheme_clusters(s: Seq<char>) -> Seq<Seq<char>>;

/// The columns that `unicode_width` gives one character; control characters
/// have none.
pub uninterp spec fn char_columns(c: char) -> Option<usize>;

/// Calls `UnicodeSegmentation::graphemes` with extended clusters and copies
/// each cluster out. Believed: the clusters come in the order and with the
/// contents that the name `grapheme_clusters` stands for.
#[verifier::external_body]
pub(crate) fn split_graphemes(s: &str) -> (r: Vec<String>)
    ensures
        r.len() == grapheme_clusters(s@).len(),
        forall|i: int| 0 <= i < r.len() ==> (#[trigger] r[i])@ == grapheme_clusters(s@)[i],
{
    s.graphemes(true).map(String::from).collect()
}

/// Calls `UnicodeWidthChar::width`. Believed: the answer depends on the
/// character alone.
#[verifier::external_body]
fn char_width(c: char) -> (r: Option<usize>)
    ensures
        r == char_columns(c),
{
    UnicodeWidthChar::width(c)
}

/// The columns one character counts for: those it has, or none.
pub open spec fn columns_of(c: char) -> nat {
    match char_columns(c) {
        Some(n) => n as nat,
        None => 0,
    }
}

/// The width of one grapheme cluster: that of its widest character.
pub open spec fn cluster_width(g: Seq<char>) -> nat
    decreases g.len(),
{
    if g.len() == 0 {
        0
    } else {
        let rest = cluster_width(g.drop_last());
        let last = columns_of(g.last());
        if last > rest {
            last
        } else {
            rest
        }
    }
}

/// No character of a cluster is wider than the cluster, and a cluster with
/// some width has a character of that width.
pub proof fn lemma_cluster_width_is_widest(g: Seq<char>)
    ensures
        forall|i: int| 0 <= i < g.len() ==> columns_of(#[trigger] g[i]) <= cluster_width(g),
        cluster_width(g) > 0 ==> exists|i: int|
            0 <= i < g.len() && columns_of(#[trigger] g[i]) == cluster_width(g),
    decreases g.len(),
{
    if g.len() > 0 {
        let rest = g.drop_last();
        lemma_cluster_width_is_widest(rest);
        assert forall|i: int| 0 <= i < g.len() implies columns_of(#[trigger] g[i])
            <= cluster_width(g) by {
            if i < g.len() - 1 {
                assert(rest[i] == g[i]);
            }
        }
        if cluster_width(g) > 0 {
            if columns_of(g.last()) > cluster_width(rest) {
                assert(columns_of(g[g.len() - 1]) == cluster_width(g));
            } else {
                let i = choose|i: int|
                    0 <= i < rest.len() && columns_of(#[trigger] rest[i]) == cluster_width(rest);
                assert(rest[i] == g[i]);
            }
        }
    }
}

/// The summed width of a sequence of clusters.
pub open spec fn total_width(gs: Seq<Seq<char>>) -> nat
    decreases gs.len(),
{
    if gs.len() == 0 {
        0
    } else {
        total_width(gs.drop_last()) + cluster_width(gs.last())
    }
}

/// The display width of a string: the summed width of its grapheme clusters.
pub open spec fn display_width(s: Seq<char>) -> nat {
    total_width(grapheme_clusters(s))
}

/// The width of one grapheme cluster.
pub fn grapheme_width(g: &str) -> (r: usize)
    ensures
        r == cluster_width(g@),
{
    let n: usize = g.unicode_len();
    let mut widest: usize = 0;
    let mut i: usize = 0;
    while i < n
        invariant
            n == g@.len(),
            i <= n,
            widest == cluster_width(g@.take(i as int)),
        decreases n - i,
    {
        let c = g.get_char(i);
        proof {
            assert(g@.take(i + 1).drop_last() =~= g@.take(i as int));
        }
        match char_width(c) {
            Some(w) => {
                if w > widest {
                    widest = w;
                }
            },
            None => {},
        }
        i += 1;
    }
    proof {
        assert(g@.take(n as int) =~= g@);
    }
    widest
}

/// The width of every cluster of `clusters`, in order.
pub(crate) fn cluster_widths(clusters: &Vec<String>) -> (r: Vec<usize>)
    ensures
        r.len() == clusters.len(),
        forall|i: int| 0 <= i < r.len() ==> #[trigger] r[i] == cluster_width(clusters[i]@),
{
    let mut widths: Vec<usize> = Vec::new();
    let mut i: usize = 0;
    while i < clusters.len()
        invariant
            i <= clusters.len(),
            widths.len() == i,
            forall|j: int| 0 <= j < i ==> #[trigger] widths[j] == cluster_width(clusters[j]@),
        decreases clusters.len() - i,
    {
        let w = grapheme_width(clusters[i].as_str());
        widths.push(w);
        i += 1;
    }
    widths
}

/// What a sum of columns comes to in a `usize`: itself, or the largest
/// `usize` where it is too large for one.
pub open spec fn clamped(n: nat) -> usize {
    if n <= usize::MAX {
        n as usize
    } else {
        usize::MAX
    }
}

/// The display width of a string in terminal columns.
pub fn width_graphemes(s: &str) -> (r: usize)
    ensures
        r == clamped(display_width(s@)),
{
    let clusters = split_graphemes(s);
    let widths = cluster_widths(&clusters);
    let ghost gs = grapheme_clusters(s@);
    let mut sum: usize = 0;
    let mut i: usize = 0;
    while i < widths.len()
        invariant
            i <= widths.len(),
            widths.len() == gs.len(),
            forall|j: int| 0 <= j < widths.len() ==> #[trigger] widths[j] == cluster_width(gs[j]),
            sum == clamped(total_width(gs.take(i as int))),
        decreases widths.len() - i,
    {
        proof {
            assert(gs.take(i + 1).drop_last() =~= gs.take(i as int));
        }
        let w = widths[i];
        if w > usize::MAX - sum {
            sum = usize::MAX;
        } else {
            sum = sum + w;
        }
        i += 1;
    }
    proof {
        assert(gs.take(widths.len() as int) =~= gs);
    }
    sum
}

} // verus!
