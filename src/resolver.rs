use vstd::prelude::*;

use crate::bundle::{BundleDefinition, Catalog, ComponentSpec, DefinitionSpec, PriceAdjustment};
use crate::inventory::{deduct, lemma_first_index, CartLine, Inventory, LineState};
use crate::matcher::{
    claim, deduct_all, find_match, first_fit, fits, fits_in_turn, lemma_fits_in_turn_step, BundleMatch, Pick,
};

verus! {

/// One line consumed by a merge: its id and the quantity taken.
#[derive(Clone, Debug, PartialEq, Eq)]
pub struct CartLineInput {
    pub cart_line_id: String,
    pub quantity: u64,
}

pub struct LineUse {
    pub line_id: Seq<char>,
    pub quantity: nat,
}

impl View for CartLineInput {
    type V = LineUse;

    open spec fn view(&self) -> LineUse {
        LineUse { line_id: self.cart_line_id@, quantity: self.quantity as nat }
    }
}

/// An instruction to merge the consumed lines into one parent line.
#[derive(Clone, Debug, PartialEq, Eq)]
pub struct MergeOperation {
    pub parent_variant_id: String,
    pub cart_lines: Vec<CartLineInput>,
    pub price: PriceAdjustment,
}

pub struct MergeSpec {
    pub parent: Seq<char>,
    pub lines: Seq<LineUse>,
    pub price: PriceAdjustment,
}

impl View for MergeOperation {
    type V = MergeSpec;

    open spec fn view(&self) -> MergeSpec {
        MergeSpec {
            parent: self.parent_variant_id@,
            lines: self.cart_lines@.map_values(|l: CartLineInput| l@),
            price: self.price,
        }
    }
}

pub open spec fn ops_view(ops: Seq<MergeOperation>) -> Seq<MergeSpec> {
    ops.map_values(|o: MergeOperation| o@)
}

/// The merge operation for the picks of definition `d` on the lines `s`.
pub open spec fn merge_of(s: Seq<LineState>, d: DefinitionSpec, picks: Seq<Pick>) -> MergeSpec {
    MergeSpec {
        parent: d.parent,
        lines: picks.map_values(|p: Pick| LineUse { line_id: s[p.line].id, quantity: p.quantity }),
        price: d.price,
    }
}

/// One resolution pass: the definitions in order, each claiming from what the earlier
/// ones left. Gives the lines afterwards and the merge operations in order.
pub open spec fn pass(s: Seq<LineState>, defs: Seq<DefinitionSpec>) -> (
    Seq<LineState>,
    Seq<MergeSpec>,
)
    decreases defs.len(),
{
    if defs.len() == 0 {
        (s, Seq::empty())
    } else {
        let (t, ops) = pass(s, defs.drop_last());
        match claim(t, defs.last().components) {
            None => (t, ops),
            Some(p) => (deduct_all(t, p), ops.push(merge_of(t, defs.last(), p))),
        }
    }
}

/// Units of variant `a` left over all lines.
pub open spec fn units(s: Seq<LineState>, a: Seq<char>) -> nat
    decreases s.len(),
{
    if s.len() == 0 {
        0
    } else {
        units(s.drop_last(), a) + if s.last().variant == a {
            s.last().remaining
        } else {
            0
        }
    }
}

proof fn lemma_units_deduct(s: Seq<LineState>, a: Seq<char>, i: int, q: nat)
    requires
        0 <= i < s.len(),
        s[i].variant == a,
        q <= s[i].remaining,
    ensures
        units(deduct(s, i, q), a) + q == units(s, a),
    decreases s.len(),
{
    let t = deduct(s, i, q);
    if i == s.len() - 1 {
        assert(t.drop_last() =~= s.drop_last());
    } else {
        assert(t.drop_last() =~= deduct(s.drop_last(), i, q));
        lemma_units_deduct(s.drop_last(), a, i, q);
    }
}

proof fn lemma_units_at_least(s: Seq<LineState>, a: Seq<char>, i: int)
    requires
        0 <= i < s.len(),
        s[i].variant == a,
    ensures
        units(s, a) >= s[i].remaining,
    decreases s.len(),
{
    if i < s.len() - 1 {
        lemma_units_at_least(s.drop_last(), a, i);
    }
}

proof fn lemma_units_none(s: Seq<LineState>, a: Seq<char>)
    requires
        forall|k: int| 0 <= k < s.len() && #[trigger] s[k].variant == a ==> s[k].remaining == 0,
    ensures
        units(s, a) == 0,
    decreases s.len(),
{
    if s.len() > 0 {
        let d = s.drop_last();
        assert forall|k: int| 0 <= k < d.len() && #[trigger] d[k].variant == a implies d[k].remaining
            == 0 by {
            assert(d[k] == s[k]);
        }
        lemma_units_none(d, a);
        assert(s[s.len() - 1] == s.last());
    }
}

/// A one-unit component of `a` is claimed exactly when some unit of `a` is left.
proof fn lemma_unit_claim(t: Seq<LineState>, comps: Seq<ComponentSpec>, a: Seq<char>)
    requires
        comps == seq![ComponentSpec { variant: a, quantity: 1 }],
    ensures
        (claim(t, comps) is Some) == (units(t, a) > 0),
        (claim(t, comps) is Some) ==> units(deduct_all(t, claim(t, comps)->0), a) + 1 == units(
            t,
            a,
        ),
{
    let c = comps[0];
    assert(comps.drop_last() =~= Seq::<ComponentSpec>::empty());
    assert(comps.last() == c);
    assert(claim(t, comps.drop_last()) == Some(Seq::<Pick>::empty()));
    assert(deduct_all(t, Seq::<Pick>::empty()) == t);
    lemma_first_index(t, fits(c));
    let i = first_fit(t, c);
    if i >= 0 {
        lemma_units_at_least(t, a, i);
        let p = Seq::<Pick>::empty().push(Pick { line: i, quantity: 1 });
        assert(claim(t, comps) == Some(p));
        assert(p.drop_last() =~= Seq::<Pick>::empty());
        lemma_units_deduct(t, a, i, 1);
    } else {
        assert forall|k: int| 0 <= k < t.len() && #[trigger] t[k].variant == a implies t[k].remaining
            == 0 by {
            assert(!fits(c)(t[k]));
        }
        lemma_units_none(t, a);
    }
}

/// Identical bundles of one unit of `a` each: with N units of `a` in the cart, the
/// first min(N, number of definitions) of them match, one unit apiece, and the rest
/// are skipped; when there are at least N definitions, no unit of `a` is left.
pub proof fn lemma_unit_bundles(s: Seq<LineState>, defs: Seq<DefinitionSpec>, a: Seq<char>)
    requires
        forall|k: int|
            0 <= k < defs.len() ==> (#[trigger] defs[k]).components == seq![
                ComponentSpec { variant: a, quantity: 1 },
            ],
    ensures
        pass(s, defs).1.len() == if defs.len() <= units(s, a) {
            defs.len()
        } else {
            units(s, a)
        },
        units(pass(s, defs).0, a) == if defs.len() <= units(s, a) {
            units(s, a) - defs.len()
        } else {
            0
        },
    decreases defs.len(),
{
    if defs.len() > 0 {
        let d = defs.drop_last();
        assert forall|k: int| 0 <= k < d.len() implies (#[trigger] d[k]).components == seq![
            ComponentSpec { variant: a, quantity: 1 },
        ] by {
            assert(d[k] == defs[k]);
        }
        lemma_unit_bundles(s, d, a);
        let t = pass(s, d).0;
        assert(defs.last() == defs[defs.len() - 1]);
        lemma_unit_claim(t, defs.last().components, a);
    }
}

/// The pass is a function of the snapshot and the catalog: replaying it on the same
/// lines and definitions yields the same operations and the same remaining lines.
pub proof fn lemma_replay_is_deterministic(
    s1: Seq<LineState>,
    s2: Seq<LineState>,
    defs1: Seq<DefinitionSpec>,
    defs2: Seq<DefinitionSpec>,
)
    requires
        s1 == s2,
        defs1 == defs2,
    ensures
        pass(s1, defs1) == pass(s2, defs2),
{
}

/// The merge operation for a match of `def`; pure, and it cannot fail.
pub fn emit(def: &BundleDefinition, m: &BundleMatch, inv: &Inventory) -> (r: MergeOperation)
    requires
        inv.wf(),
        forall|k: int| 0 <= k < m@.len() ==> 0 <= #[trigger] m@[k].line < inv@.len(),
    ensures
        r@ == merge_of(inv@, def@, m@),
{
    let mut lines: Vec<CartLineInput> = Vec::new();
    let mut k: usize = 0;
    while k < m.lines.len()
        invariant
            inv.wf(),
            k <= m@.len(),
            forall|j: int| 0 <= j < m@.len() ==> 0 <= #[trigger] m@[j].line < inv@.len(),
            lines@.len() == k,
            forall|j: int|
                0 <= j < k ==> #[trigger] lines@[j]@ == (LineUse {
                    line_id: inv@[m@[j].line].id,
                    quantity: m@[j].quantity,
                }),
        decreases m@.len() - k,
    {
        let ml = m.lines[k];
        assert(ml@ == m@[k as int]);
        assert(0 <= m@[k as int].line < inv@.len());
        lines.push(CartLineInput { cart_line_id: inv.line_id(ml.line), quantity: ml.quantity });
        k = k + 1;
    }
    let r = MergeOperation {
        parent_variant_id: def.parent_variant_id.clone(),
        cart_lines: lines,
        price: def.price,
    };
    assert(r@.lines =~= merge_of(inv@, def@, m@).lines);
    r
}

/// Takes every line of the match from the inventory, in order.
pub fn commit(inv: &mut Inventory, m: &BundleMatch)
    requires
        old(inv).wf(),
        fits_in_turn(old(inv)@, m@),
    ensures
        final(inv).wf(),
        final(inv)@ == deduct_all(old(inv)@, m@),
{
    let ghost s = inv@;
    let ghost picks = m@;
    let mut k: usize = 0;
    while k < m.lines.len()
        invariant
            inv.wf(),
            picks == m@,
            fits_in_turn(s, picks),
            k <= picks.len(),
            inv@ == deduct_all(s, picks.take(k as int)),
        decreases picks.len() - k,
    {
        let ml = m.lines[k];
        proof {
            assert(ml@ == picks[k as int]);
            lemma_fits_in_turn_step(s, picks, k as int);
        }
        inv.consume_at(ml.line, ml.quantity);
        k = k + 1;
    }
    assert(picks.take(picks.len() as int) =~= picks);
}

/// Applies one definition: when every component can be supplied, takes the match from
/// the inventory and returns its merge operation; otherwise leaves the inventory as it was.
pub fn apply_definition(inv: &mut Inventory, def: &BundleDefinition) -> (r: Option<MergeOperation>)
    requires
        old(inv).wf(),
    ensures
        final(inv).wf(),
        match claim(old(inv)@, def@.components) {
            None => r is None && final(inv)@ == old(inv)@,
            Some(p) => r matches Some(op) && op@ == merge_of(old(inv)@, def@, p) && final(inv)@
                == deduct_all(old(inv)@, p),
        },
{
    match find_match(def, inv) {
        None => None,
        Some(m) => {
            let op = emit(def, &m, inv);
            commit(inv, &m);
            Some(op)
        },
    }
}

/// Runs the catalog over the inventory in order and returns the merge operations of the
/// definitions that matched, in the order they matched.
pub fn resolve(inv: &mut Inventory, catalog: &Catalog) -> (r: Vec<MergeOperation>)
    requires
        old(inv).wf(),
    ensures
        final(inv).wf(),
        (final(inv)@, ops_view(r@)) == pass(old(inv)@, catalog@),
{
    let ghost s = inv@;
    let ghost defs = catalog@;
    let mut ops: Vec<MergeOperation> = Vec::new();
    let mut i: usize = 0;
    while i < catalog.len()
        invariant
            inv.wf(),
            defs == catalog@,
            i <= defs.len(),
            (inv@, ops_view(ops@)) == pass(s, defs.take(i as int)),
        decreases defs.len() - i,
    {
        proof {
            assert(defs.take(i + 1).drop_last() =~= defs.take(i as int));
            assert(defs.take(i + 1).last() == defs[i as int]);
        }
        let def = catalog.get(i);
        match apply_definition(inv, def) {
            None => {},
            Some(op) => {
                ops.push(op);
                assert(ops_view(ops@) =~= pass(s, defs.take(i + 1)).1);
            },
        }
        i = i + 1;
    }
    assert(defs.take(defs.len() as int) =~= defs);
    ops
}

/// One full pass on a fresh inventory built from the snapshot.
pub fn bundle_cart(lines: &Vec<CartLine>, catalog: &Catalog) -> (r: Vec<MergeOperation>)
    ensures
        ops_view(r@) == pass(lines@.map_values(|l: CartLine| l@), catalog@).1,
{
    let mut inv = Inventory::new(lines);
    resolve(&mut inv, catalog)
}

} // verus!
