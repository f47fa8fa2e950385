use cart_rules::bundle::{BundleDefinition, Catalog, CatalogError, Component, Decimal, PriceAdjustment};
use cart_rules::inventory::{CartLine, Inventory, InventoryError};
use cart_rules::matcher::{find_match, MatchedLine};
use cart_rules::resolver::{apply_definition, bundle_cart, resolve, CartLineInput, MergeOperation};

fn line(id: &str, variant: &str, quantity: u64) -> CartLine {
    CartLine { id: id.to_string(), variant_id: variant.to_string(), quantity }
}

fn half_off() -> PriceAdjustment {
    PriceAdjustment::Percentage(Decimal { mantissa: -50, scale: 0 })
}

fn definition(parent: &str, components: &[(&str, u64)]) -> BundleDefinition {
    BundleDefinition {
        parent_variant_id: parent.to_string(),
        components: components
            .iter()
            .map(|(v, q)| Component { variant_id: v.to_string(), quantity: *q })
            .collect(),
        price: half_off(),
    }
}

fn input(id: &str, quantity: u64) -> CartLineInput {
    CartLineInput { cart_line_id: id.to_string(), quantity }
}

fn snapshot_ab() -> Vec<CartLine> {
    vec![line("L1", "A", 2), line("L2", "B", 1)]
}

#[test]
fn end_to_end_one_definition() {
    let catalog = Catalog::new(vec![definition("P", &[("A", 1), ("B", 1)])]).unwrap();
    let mut inv = Inventory::new(&snapshot_ab());
    let ops = resolve(&mut inv, &catalog);
    assert_eq!(
        ops,
        vec![MergeOperation {
            parent_variant_id: "P".to_string(),
            cart_lines: vec![input("L1", 1), input("L2", 1)],
            price: half_off(),
        }]
    );
    assert_eq!(inv.remaining("L1"), Some(1));
    assert_eq!(inv.remaining("L2"), Some(0));
}

#[test]
fn end_to_end_two_identical_definitions() {
    let d = definition("P", &[("A", 1), ("B", 1)]);
    let catalog = Catalog::new(vec![d.clone(), d]).unwrap();
    let mut inv = Inventory::new(&snapshot_ab());
    let ops = resolve(&mut inv, &catalog);
    assert_eq!(ops.len(), 1);
    assert_eq!(ops[0].cart_lines, vec![input("L1", 1), input("L2", 1)]);
    assert_eq!(inv.remaining("L1"), Some(1));
    assert_eq!(inv.remaining("L2"), Some(0));
}

#[test]
fn identical_unit_bundles_stop_when_units_run_out() {
    let d = definition("P", &[("A", 1)]);
    let lines = vec![line("L1", "A", 2), line("L2", "B", 5), line("L3", "A", 1)];

    let exact = Catalog::new(vec![d.clone(), d.clone(), d.clone()]).unwrap();
    let mut inv = Inventory::new(&lines);
    let ops = resolve(&mut inv, &exact);
    assert_eq!(ops.len(), 3);
    assert_eq!(ops[0].cart_lines, vec![input("L1", 1)]);
    assert_eq!(ops[1].cart_lines, vec![input("L1", 1)]);
    assert_eq!(ops[2].cart_lines, vec![input("L3", 1)]);
    assert_eq!(inv.remaining("L1"), Some(0));
    assert_eq!(inv.remaining("L3"), Some(0));
    assert_eq!(inv.remaining("L2"), Some(5));

    let one_more = Catalog::new(vec![d.clone(), d.clone(), d.clone(), d]).unwrap();
    let mut inv = Inventory::new(&lines);
    let ops = resolve(&mut inv, &one_more);
    assert_eq!(ops.len(), 3);
    assert_eq!(inv.remaining("L1"), Some(0));
    assert_eq!(inv.remaining("L3"), Some(0));
}

#[test]
fn tie_break_takes_the_earlier_line() {
    let lines = vec![line("L1", "B", 4), line("L2", "A", 3), line("L3", "A", 3)];
    let inv = Inventory::new(&lines);
    let m = find_match(&definition("P", &[("A", 2)]), &inv).unwrap();
    assert_eq!(m.lines, vec![MatchedLine { line: 1, quantity: 2 }]);
}

#[test]
fn tie_break_skips_a_line_that_is_too_small() {
    let lines = vec![line("L1", "A", 1), line("L2", "A", 3)];
    let inv = Inventory::new(&lines);
    let m = find_match(&definition("P", &[("A", 2)]), &inv).unwrap();
    assert_eq!(m.lines, vec![MatchedLine { line: 1, quantity: 2 }]);
}

#[test]
fn failed_match_leaves_inventory_unchanged() {
    let lines = vec![line("L1", "A", 2), line("L2", "B", 1)];
    let mut inv = Inventory::new(&lines);
    let before = inv.active_lines();
    let r = apply_definition(&mut inv, &definition("P", &[("A", 1), ("C", 1)]));
    assert!(r.is_none());
    assert_eq!(inv.active_lines(), before);
    assert_eq!(inv.remaining("L1"), Some(2));
    assert_eq!(inv.remaining("L2"), Some(1));
}

#[test]
fn repeated_component_claims_from_what_is_left() {
    let d = definition("P", &[("A", 1), ("A", 1)]);
    let mut short = Inventory::new(&vec![line("L1", "A", 1)]);
    assert!(apply_definition(&mut short, &d).is_none());
    assert_eq!(short.remaining("L1"), Some(1));

    let mut enough = Inventory::new(&vec![line("L1", "A", 1), line("L2", "A", 1)]);
    let op = apply_definition(&mut enough, &d).unwrap();
    assert_eq!(op.cart_lines, vec![input("L1", 1), input("L2", 1)]);
    assert_eq!(enough.remaining("L1"), Some(0));
    assert_eq!(enough.remaining("L2"), Some(0));
}

#[test]
fn replay_gives_identical_operations() {
    let lines = vec![line("L1", "A", 3), line("L2", "B", 2), line("L3", "A", 1)];
    let catalog = Catalog::new(vec![
        definition("P", &[("A", 2), ("B", 1)]),
        definition("Q", &[("A", 2)]),
        definition("R", &[("B", 1), ("A", 1)]),
    ])
    .unwrap();
    let first = bundle_cart(&lines, &catalog);
    let second = bundle_cart(&lines, &catalog);
    assert_eq!(first, second);
    assert_eq!(first.len(), 2);
    assert_eq!(first[0].parent_variant_id, "P");
    assert_eq!(first[0].cart_lines, vec![input("L1", 2), input("L2", 1)]);
    assert_eq!(first[1].parent_variant_id, "R");
    assert_eq!(first[1].cart_lines, vec![input("L2", 1), input("L1", 1)]);
}

#[test]
fn consumption_adds_up_in_any_order() {
    let lines = vec![line("L1", "A", 5), line("L2", "B", 4)];
    let mut a = Inventory::new(&lines);
    assert_eq!(a.consume("L1", 2), Ok(()));
    assert_eq!(a.consume("L2", 1), Ok(()));
    assert_eq!(a.consume("L1", 3), Ok(()));
    let mut b = Inventory::new(&lines);
    assert_eq!(b.consume("L1", 3), Ok(()));
    assert_eq!(b.consume("L1", 2), Ok(()));
    assert_eq!(b.consume("L2", 1), Ok(()));
    assert_eq!(a.remaining("L1"), Some(0));
    assert_eq!(a.remaining("L2"), Some(3));
    assert_eq!(a.active_lines(), b.active_lines());
}

#[test]
fn consume_reports_insufficient_quantity_and_changes_nothing() {
    let mut inv = Inventory::new(&vec![line("L1", "A", 2)]);
    assert_eq!(inv.consume("L1", 3), Err(InventoryError::InsufficientQuantity));
    assert_eq!(inv.remaining("L1"), Some(2));
}

#[test]
fn consume_reports_unknown_line() {
    let mut inv = Inventory::new(&vec![line("L1", "A", 2)]);
    assert_eq!(inv.consume("L9", 1), Err(InventoryError::UnknownLine));
    assert_eq!(inv.remaining("L9"), None);
    assert_eq!(inv.remaining("L1"), Some(2));
}

#[test]
fn active_lines_leave_out_exhausted_lines() {
    let mut inv = Inventory::new(&vec![line("L1", "A", 1), line("L2", "B", 0), line("L3", "C", 2)]);
    assert_eq!(inv.active_lines(), vec![line("L1", "A", 1), line("L3", "C", 2)]);
    inv.consume("L1", 1).unwrap();
    assert_eq!(inv.active_lines(), vec![line("L3", "C", 2)]);
}

#[test]
fn catalog_rejects_definition_without_components() {
    let r = Catalog::new(vec![definition("P", &[("A", 1)]), definition("Q", &[])]);
    assert_eq!(r.err(), Some(CatalogError::MalformedDefinition(1)));
}

#[test]
fn catalog_rejects_zero_quantity() {
    let r = Catalog::new(vec![definition("P", &[("A", 0)]), definition("Q", &[])]);
    assert_eq!(r.err(), Some(CatalogError::MalformedDefinition(0)));
}

#[test]
fn empty_cart_and_empty_catalog() {
    let catalog = Catalog::new(vec![definition("P", &[("A", 1)])]).unwrap();
    assert!(bundle_cart(&vec![], &catalog).is_empty());
    let empty = Catalog::new(vec![]).unwrap();
    assert_eq!(empty.len(), 0);
    assert!(bundle_cart(&snapshot_ab(), &empty).is_empty());
}

#[test]
fn merge_carries_parent_and_fixed_amount() {
    let fixed = PriceAdjustment::FixedAmount(Decimal { mantissa: 1250, scale: 2 });
    let d = BundleDefinition {
        parent_variant_id: "gid://shopify/ProductVariant/1".to_string(),
        components: vec![Component { variant_id: "B".to_string(), quantity: 1 }],
        price: fixed,
    };
    let catalog = Catalog::new(vec![d]).unwrap();
    let ops = bundle_cart(&snapshot_ab(), &catalog);
    assert_eq!(ops.len(), 1);
    assert_eq!(ops[0].parent_variant_id, "gid://shopify/ProductVariant/1");
    assert_eq!(ops[0].price, fixed);
    assert_eq!(ops[0].cart_lines, vec![input("L2", 1)]);
}

#[test]
fn catalog_lists_definitions_by_component_variant() {
    let catalog = Catalog::new(vec![
        definition("P", &[("A", 1), ("B", 1)]),
        definition("Q", &[("C", 2)]),
        definition("R", &[("B", 3)]),
    ])
    .unwrap();
    assert_eq!(catalog.definitions_with("B"), vec![0, 2]);
    assert_eq!(catalog.definitions_with("C"), vec![1]);
    assert_eq!(catalog.definitions_with("Z"), Vec::<usize>::new());
}
