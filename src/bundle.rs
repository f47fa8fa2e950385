use vstd::prelude::*;
use vstd::string::StringExecFns;

verus! {

/// A decimal number: `mantissa` times ten to the power of minus `scale`.
#[derive(Clone, Copy, Debug, PartialEq, Eq, Structural)]
pub struct Decimal {
    pub mantissa: i64,
    pub scale: u32,
}

/// How the price of a merged parent line is adjusted.
#[derive(Clone, Copy, Debug, PartialEq, Eq, Structural)]
pub enum PriceAdjustment {
    /// A signed percentage of the components' price.
    Percentage(Decimal),
    /// A signed fixed amount.
    FixedAmount(Decimal),
}

/// One required component of a bundle: a variant and how many units of it.
#[derive(Clone, Debug, PartialEq, Eq)]
pub struct Component {
    pub variant_id: String,
    pub quantity: u64,
}

pub struct ComponentSpec {
    pub variant: Seq<char>,
    pub quantity: nat,
}

impl View for Component {
    type V = ComponentSpec;

    open spec fn view(&self) -> ComponentSpec {
        ComponentSpec { variant: self.variant_id@, quantity: self.quantity as nat }
    }
}

/// A parent variant, the components merged into it, and the price adjustment.
#[derive(Clone, Debug, PartialEq, Eq)]
pub struct BundleDefinition {
    pub parent_variant_id: String,
    pub components: Vec<Component>,
    pub price: PriceAdjustment,
}

pub struct DefinitionSpec {
    pub parent: Seq<char>,
    pub components: Seq<ComponentSpec>,
    pub price: PriceAdjustment,
}

impl View for BundleDefinition {
    type V = DefinitionSpec;

    open spec fn view(&self) -> DefinitionSpec {
        DefinitionSpec {
            parent: self.parent_variant_id@,
            components: self.components@.map_values(|c: Component| c@),
            price: self.price,
        }
    }
}

/// A definition lists at least one component, each with a positive quantity.
pub open spec fn well_formed(d: DefinitionSpec) -> bool {
    &&& d.components.len() > 0
    &&& forall|j: int| 0 <= j < d.components.len() ==> #[trigger] d.components[j].quantity > 0
}

#[derive(Clone, Copy, Debug, PartialEq, Eq, Structural)]
pub enum CatalogError {
    /// The definition at this position lists no component, or a component of quantity zero.
    MalformedDefinition(usize),
}

/// The first malformed definition's position, or -1 when all are well formed.
pub open spec fn first_malformed(defs: Seq<DefinitionSpec>) -> int
    decreases defs.len(),
{
    if defs.len() == 0 {
        -1
    } else {
        let k = first_malformed(defs.drop_last());
        if k >= 0 {
            k
        } else if !well_formed(defs.last()) {
            defs.len() - 1
        } else {
            -1
        }
    }
}

proof fn lemma_first_malformed(defs: Seq<DefinitionSpec>)
    ensures
        -1 <= first_malformed(defs) < defs.len(),
        first_malformed(defs) >= 0 ==> !well_formed(defs[first_malformed(defs)]),
        forall|j: int|
            0 <= j < defs.len() && (first_malformed(defs) < 0 || j < first_malformed(defs))
                ==> well_formed(#[trigger] defs[j]),
    decreases defs.len(),
{
    if defs.len() > 0 {
        lemma_first_malformed(defs.drop_last());
        assert(forall|j: int| 0 <= j < defs.len() - 1 ==> defs.drop_last()[j] == defs[j]);
    }
}

/// Whether a definition is well formed.
pub fn is_well_formed(d: &BundleDefinition) -> (r: bool)
    ensures
        r == well_formed(d@),
{
    if d.components.len() == 0 {
        return false;
    }
    let mut j: usize = 0;
    while j < d.components.len()
        invariant
            j <= d.components@.len(),
            forall|k: int| 0 <= k < j ==> #[trigger] d.components@[k].quantity > 0,
        decreases d.components@.len() - j,
    {
        if d.components[j].quantity == 0 {
            assert(d@.components[j as int].quantity == 0);
            return false;
        }
        j = j + 1;
    }
    true
}

/// Whether some component of `d` is the variant `v`.
pub open spec fn mentions(d: DefinitionSpec, v: Seq<char>) -> bool {
    exists|j: int| 0 <= j < d.components.len() && (#[trigger] d.components[j]).variant == v
}

/// Positions of the definitions that have `v` among their components, in order.
pub open spec fn indices_with(defs: Seq<DefinitionSpec>, v: Seq<char>) -> Seq<int>
    decreases defs.len(),
{
    if defs.len() == 0 {
        Seq::empty()
    } else if mentions(defs.last(), v) {
        indices_with(defs.drop_last(), v).push(defs.len() - 1)
    } else {
        indices_with(defs.drop_last(), v)
    }
}

/// Whether some component of `d` is the variant `key`.
fn has_component(d: &BundleDefinition, key: &String) -> (r: bool)
    ensures
        r == mentions(d@, key@),
{
    let mut j: usize = 0;
    while j < d.components.len()
        invariant
            j <= d@.components.len(),
            forall|k: int| 0 <= k < j ==> (#[trigger] d@.components[k]).variant != key@,
        decreases d@.components.len() - j,
    {
        assert(d@.components[j as int] == d.components@[j as int]@);
        if d.components[j].variant_id == *key {
            return true;
        }
        j = j + 1;
    }
    false
}

/// An ordered list of well-formed bundle definitions.
pub struct Catalog {
    definitions: Vec<BundleDefinition>,
}

impl View for Catalog {
    type V = Seq<DefinitionSpec>;

    closed spec fn view(&self) -> Seq<DefinitionSpec> {
        self.definitions@.map_values(|d: BundleDefinition| d@)
    }
}

impl Catalog {
    pub closed spec fn wf(&self) -> bool {
        forall|i: int| 0 <= i < self@.len() ==> well_formed(#[trigger] self@[i])
    }

    /// Takes the definitions in the given order, or names the first malformed one.
    pub fn new(definitions: Vec<BundleDefinition>) -> (r: Result<Catalog, CatalogError>)
        ensures
            first_malformed(definitions@.map_values(|d: BundleDefinition| d@)) < 0 ==> (r matches Ok(
                c,
            ) && c.wf() && c@ == definitions@.map_values(|d: BundleDefinition| d@)),
            first_malformed(definitions@.map_values(|d: BundleDefinition| d@)) >= 0 ==> r
                == Err::<Catalog, CatalogError>(
                CatalogError::MalformedDefinition(
                    first_malformed(definitions@.map_values(|d: BundleDefinition| d@)) as usize,
                ),
            ),
    {
        let ghost defs = definitions@.map_values(|d: BundleDefinition| d@);
        proof {
            lemma_first_malformed(defs);
        }
        let mut i: usize = 0;
        while i < definitions.len()
            invariant
                i <= definitions@.len(),
                defs == definitions@.map_values(|d: BundleDefinition| d@),
                -1 <= first_malformed(defs) < defs.len(),
                first_malformed(defs) >= 0 ==> !well_formed(defs[first_malformed(defs)]),
                forall|j: int|
                    0 <= j < defs.len() && (first_malformed(defs) < 0 || j < first_malformed(
                        defs,
                    )) ==> well_formed(#[trigger] defs[j]),
                forall|j: int| 0 <= j < i ==> well_formed(#[trigger] defs[j]),
            decreases definitions@.len() - i,
        {
            assert(defs[i as int] == definitions@[i as int]@);
            if !is_well_formed(&definitions[i]) {
                return Err(CatalogError::MalformedDefinition(i));
            }
            i = i + 1;
        }
        Ok(Catalog { definitions })
    }

    pub fn len(&self) -> (r: usize)
        ensures
            r == self@.len(),
    {
        self.definitions.len()
    }

    pub fn get(&self, i: usize) -> (r: &BundleDefinition)
        requires
            i < self@.len(),
        ensures
            r@ == self@[i as int],
    {
        &self.definitions[i]
    }
    /// Positions of the definitions in which the variant takes part, in catalog order.
    pub fn definitions_with(&self, variant_id: &str) -> (r: Vec<usize>)
        ensures
            r@.map_values(|i: usize| i as int) == indices_with(self@, variant_id@),
    {
        let key = String::from_str(variant_id);
        let mut r: Vec<usize> = Vec::new();
        let mut i: usize = 0;
        while i < self.definitions.len()
            invariant
                key@ == variant_id@,
                i <= self@.len(),
                r@.map_values(|i: usize| i as int) == indices_with(self@.take(i as int), variant_id@),
            decreases self@.len() - i,
        {
            assert(self@.take(i + 1).drop_last() =~= self@.take(i as int));
            assert(self@.take(i + 1).last() == self.definitions@[i as int]@);
            if has_component(&self.definitions[i], &key) {
                r.push(i);
                assert(r@.map_values(|i: usize| i as int) =~= indices_with(
                    self@.take(i as int),
                    variant_id@,
                ).push(i as int));
            }
            i = i + 1;
        }
        assert(self@.take(self@.len() as int) =~= self@);
        r
    }
}

} // verus!
