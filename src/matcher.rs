use vstd::prelude::*;

use crate::bundle::{BundleDefinition, Component, ComponentSpec};
use crate::inventory::{
    deduct, first_index, lemma_first_index, lemma_first_index_is, lemma_first_index_none, same_lines, Inventory,
    LineState,
};

verus! {

/// A proposed claim: `quantity` units of the line at position `line`.
pub struct Pick {
    pub line: int,
    pub quantity: nat,
}

/// The lines after each pick in turn has taken its quantity.
pub open spec fn deduct_all(s: Seq<LineState>, picks: Seq<Pick>) -> Seq<LineState>
    decreases picks.len(),
{
    if picks.len() == 0 {
        s
    } else {
        deduct(deduct_all(s, picks.drop_last()), picks.last().line, picks.last().quantity)
    }
}

/// Each pick names a line of `s` and takes no more than that line holds after the picks before it.
pub open spec fn fits_in_turn(s: Seq<LineState>, picks: Seq<Pick>) -> bool {
    forall|k: int|
        0 <= k < picks.len() ==> 0 <= #[trigger] picks[k].line < s.len() && picks[k].quantity
            <= deduct_all(s, picks.take(k))[picks[k].line].remaining
}

pub open spec fn fits(c: ComponentSpec) -> spec_fn(LineState) -> bool {
    |l: LineState| l.variant == c.variant && l.remaining >= c.quantity
}

/// The first line that carries the component's variant with enough quantity, or -1.
pub open spec fn first_fit(s: Seq<LineState>, c: ComponentSpec) -> int {
    first_index(s, fits(c))
}

/// The picks for the components in order, each from the first line that still fits
/// once the earlier components have been claimed; `None` when some component finds none.
pub open spec fn claim(s: Seq<LineState>, comps: Seq<ComponentSpec>) -> Option<Seq<Pick>>
    decreases comps.len(),
{
    if comps.len() == 0 {
        Some(Seq::empty())
    } else {
        match claim(s, comps.drop_last()) {
            None => None,
            Some(p) => {
                let i = first_fit(deduct_all(s, p), comps.last());
                if i < 0 {
                    None
                } else {
                    Some(p.push(Pick { line: i, quantity: comps.last().quantity }))
                }
            },
        }
    }
}

/// Picks that stay within `s` change quantities only.
pub proof fn lemma_deduct_all_same_lines(s: Seq<LineState>, picks: Seq<Pick>)
    requires
        forall|k: int| 0 <= k < picks.len() ==> 0 <= #[trigger] picks[k].line < s.len(),
    ensures
        same_lines(s, deduct_all(s, picks)),
    decreases picks.len(),
{
    if picks.len() > 0 {
        let d = picks.drop_last();
        assert forall|k: int| 0 <= k < d.len() implies 0 <= #[trigger] d[k].line < s.len() by {
            assert(d[k] == picks[k]);
        }
        lemma_deduct_all_same_lines(s, d);
        assert(picks[picks.len() - 1] == picks.last());
    }
}

/// A prefix of the components that cannot be claimed leaves the whole unclaimable.
pub proof fn lemma_claim_prefix_none(s: Seq<LineState>, comps: Seq<ComponentSpec>, k: int)
    requires
        0 <= k <= comps.len(),
        claim(s, comps.take(k)) is None,
    ensures
        claim(s, comps) is None,
    decreases comps.len(),
{
    if k == comps.len() {
        assert(comps.take(k) =~= comps);
    } else {
        assert(comps.drop_last().take(k) =~= comps.take(k));
        lemma_claim_prefix_none(s, comps.drop_last(), k);
    }
}

/// Taking the pick at position `k` after those before it stays within the line.
pub proof fn lemma_fits_in_turn_step(s: Seq<LineState>, picks: Seq<Pick>, k: int)
    requires
        fits_in_turn(s, picks),
        0 <= k < picks.len(),
    ensures
        deduct_all(s, picks.take(k)).len() == s.len(),
        0 <= picks[k].line < s.len(),
        picks[k].quantity <= deduct_all(s, picks.take(k))[picks[k].line].remaining,
        deduct_all(s, picks.take(k + 1)) == deduct(
            deduct_all(s, picks.take(k)),
            picks[k].line,
            picks[k].quantity,
        ),
{
    let pre = picks.take(k);
    assert forall|j: int| 0 <= j < pre.len() implies 0 <= #[trigger] pre[j].line < s.len() by {
        assert(pre[j] == picks[j]);
    }
    lemma_deduct_all_same_lines(s, pre);
    assert(picks.take(k + 1).drop_last() =~= pre);
    assert(picks.take(k + 1).last() == picks[k]);
}

/// A claim that succeeds begins with the claims of its leading components.
pub proof fn lemma_claim_prefix(s: Seq<LineState>, comps: Seq<ComponentSpec>, k: int)
    requires
        0 <= k <= comps.len(),
        (claim(s, comps) is Some),
    ensures
        (claim(s, comps.take(k)) is Some),
        claim(s, comps.take(k))->0 == (claim(s, comps)->0).take(k),
        (claim(s, comps)->0).len() == comps.len(),
    decreases comps.len(),
{
    if comps.len() > 0 {
        let d = comps.drop_last();
        lemma_claim_prefix(s, d, d.len() as int);
        assert(d.take(d.len() as int) =~= d);
        let p = claim(s, comps)->0;
        assert(p.drop_last() =~= claim(s, d)->0);
        if k == comps.len() {
            assert(comps.take(k) =~= comps);
            assert(p.take(k) =~= p);
        } else {
            lemma_claim_prefix(s, d, k);
            assert(d.take(k) =~= comps.take(k));
            assert(p.drop_last().take(k) =~= p.take(k));
        }
    }
}

/// Tie-break by snapshot order: where two lines can both supply the first component,
/// the match takes it from the earlier one, or from a line before both.
pub proof fn lemma_earlier_line_wins(s: Seq<LineState>, comps: Seq<ComponentSpec>, i: int, j: int)
    requires
        comps.len() > 0,
        0 <= i < j < s.len(),
        fits(comps[0])(s[i]),
        fits(comps[0])(s[j]),
    ensures
        0 <= first_fit(s, comps[0]) <= i,
        (claim(s, comps) is Some) ==> (claim(s, comps)->0)[0] == (Pick {
            line: first_fit(s, comps[0]),
            quantity: comps[0].quantity,
        }),
{
    lemma_first_index(s, fits(comps[0]));
    if claim(s, comps) is Some {
        lemma_claim_prefix(s, comps, 1);
        let one = comps.take(1);
        assert(one.drop_last() =~= Seq::<ComponentSpec>::empty());
        assert(one.last() == comps[0]);
        assert(deduct_all(s, Seq::<Pick>::empty()) == s);
        assert(claim(s, one.drop_last()) == Some(Seq::<Pick>::empty()));
        let pick = Pick { line: first_fit(s, comps[0]), quantity: comps[0].quantity };
        assert(claim(s, one) == Some(Seq::<Pick>::empty().push(pick)));
        let p = claim(s, comps)->0;
        assert(p.take(1)[0] == p[0]);
    }
}

/// One line of a match.
#[derive(Clone, Copy, Debug, PartialEq, Eq, Structural)]
pub struct MatchedLine {
    pub line: usize,
    pub quantity: u64,
}

impl View for MatchedLine {
    type V = Pick;

    open spec fn view(&self) -> Pick {
        Pick { line: self.line as int, quantity: self.quantity as nat }
    }
}

/// The lines and quantities that satisfy one bundle definition, one per component.
#[derive(Clone, Debug, PartialEq, Eq)]
pub struct BundleMatch {
    pub lines: Vec<MatchedLine>,
}

impl View for BundleMatch {
    type V = Seq<Pick>;

    open spec fn view(&self) -> Seq<Pick> {
        self.lines@.map_values(|m: MatchedLine| m@)
    }
}

/// Position of the first line that fits `comp`, reading quantities from `scratch`.
fn first_fitting(inv: &Inventory, scratch: &Vec<u64>, comp: &Component, Ghost(cur): Ghost<
    Seq<LineState>,
>) -> (r: Option<usize>)
    requires
        inv.wf(),
        same_lines(inv@, cur),
        scratch@.len() == cur.len(),
        forall|k: int| 0 <= k < cur.len() ==> #[trigger] scratch@[k] == cur[k].remaining,
    ensures
        match r {
            Some(i) => i < cur.len() && i == first_fit(cur, comp@),
            None => first_fit(cur, comp@) < 0,
        },
{
    let n = inv.len();
    let mut i: usize = 0;
    while i < n
        invariant
            inv.wf(),
            n == cur.len(),
            same_lines(inv@, cur),
            scratch@.len() == n,
            forall|k: int| 0 <= k < n ==> #[trigger] scratch@[k] == cur[k].remaining,
            i <= n,
            forall|k: int| 0 <= k < i ==> !fits(comp@)(#[trigger] cur[k]),
        decreases n - i,
    {
        assert(inv@[i as int].variant == cur[i as int].variant);
        if scratch[i] >= comp.quantity && *inv.variant_at(i) == comp.variant_id {
            proof {
                lemma_first_index_is(cur, fits(comp@), i as int);
            }
            return Some(i);
        }
        i = i + 1;
    }
    proof {
        lemma_first_index_none(cur, fits(comp@));
    }
    None
}

/// Finds, for each component of `def`, the first line that can supply it, without
/// changing the inventory; `None` when some component cannot be supplied.
pub fn find_match(def: &BundleDefinition, inv: &Inventory) -> (r: Option<BundleMatch>)
    requires
        inv.wf(),
    ensures
        match claim(inv@, def@.components) {
            None => r is None,
            Some(p) => r matches Some(m) && m@ == p && p.len() == def@.components.len()
                && fits_in_turn(inv@, p),
        },
{
    let ghost s = inv@;
    let ghost comps = def@.components;
    let n = inv.len();
    let mut scratch: Vec<u64> = Vec::new();
    let mut i: usize = 0;
    while i < n
        invariant
            inv.wf(),
            n == s.len(),
            s == inv@,
            i <= n,
            scratch@.len() == i,
            forall|k: int| 0 <= k < i ==> #[trigger] scratch@[k] == s[k].remaining,
        decreases n - i,
    {
        scratch.push(inv.remaining_at(i));
        i = i + 1;
    }
    let mut lines: Vec<MatchedLine> = Vec::new();
    let mut j: usize = 0;
    while j < def.components.len()
        invariant
            inv.wf(),
            n == s.len(),
            s == inv@,
            comps == def@.components,
            j <= comps.len(),
            scratch@.len() == n,
            claim(s, comps.take(j as int)) == Some(lines@.map_values(|m: MatchedLine| m@)),
            fits_in_turn(s, lines@.map_values(|m: MatchedLine| m@)),
            forall|k: int|
                0 <= k < n ==> #[trigger] scratch@[k] == deduct_all(
                    s,
                    lines@.map_values(|m: MatchedLine| m@),
                )[k].remaining,
        decreases comps.len() - j,
    {
        let ghost picks = lines@.map_values(|m: MatchedLine| m@);
        let ghost cur = deduct_all(s, picks);
        let ghost c = comps[j as int];
        proof {
            lemma_deduct_all_same_lines(s, picks);
            assert(comps.take(j + 1).drop_last() =~= comps.take(j as int));
            assert(comps.take(j + 1).last() == c);
        }
        let comp = &def.components[j];
        assert(comp@ == c);
        let found = first_fitting(inv, &scratch, comp, Ghost(cur));
        match found {
            None => {
                proof {
                    lemma_claim_prefix_none(s, comps, j + 1);
                }
                return None;
            },
            Some(i) => {
                proof {
                    lemma_first_index(cur, fits(c));
                }
                let left = scratch[i] - comp.quantity;
                scratch.set(i, left);
                let ghost pick = Pick { line: i as int, quantity: c.quantity };
                lines.push(MatchedLine { line: i, quantity: comp.quantity });
                proof {
                    let np = lines@.map_values(|m: MatchedLine| m@);
                    assert(np =~= picks.push(pick));
                    assert(np.drop_last() =~= picks);
                    assert forall|k: int| 0 <= k < np.len() implies 0 <= #[trigger] np[k].line
                        < s.len() && np[k].quantity <= deduct_all(s, np.take(k))[np[k].line].remaining by {
                        if k < picks.len() {
                            assert(np.take(k) =~= picks.take(k));
                            assert(np[k] == picks[k]);
                        } else {
                            assert(np.take(k) =~= picks);
                        }
                    }
                }
                j = j + 1;
            },
        }
    }
    assert(comps.take(comps.len() as int) =~= comps);
    proof {
        lemma_claim_prefix(s, comps, comps.len() as int);
    }
    Some(BundleMatch { lines })
}

} // verus!
