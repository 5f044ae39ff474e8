use steadyflow::catalog::{BuildingTemplate, Catalog, RecipeTemplate};
use steadyflow::design::Design;
use steadyflow::modifier::Module;
use steadyflow::node::Node;
use steadyflow::rat::Rat;
use steadyflow::InputError;

const WATER: u32 = 1;
const STEAM: u32 = 2;
const SOLID_FUEL: u32 = 3;

fn rat(n: i64, d: i64) -> Rat {
    Rat::new(n, d).unwrap()
}

fn small_catalog() -> Catalog {
    Catalog {
        resources: vec![
            (b"Water".to_vec(), WATER),
            (b"Steam".to_vec(), STEAM),
            (b"Solid Fuel".to_vec(), SOLID_FUEL),
        ],
        buildings: vec![BuildingTemplate {
            name: b"Boiler".to_vec(),
            energy_consumption: Rat::zero(),
            crafting_speed: Rat::one(),
        }],
        recipes: vec![RecipeTemplate {
            name: b"Boiling (Solid Fuel)".to_vec(),
            aliases: vec![b"Boiling".to_vec()],
            inputs: vec![(WATER, rat(60, 1)), (SOLID_FUEL, rat(144, 1000))],
            outputs: vec![(STEAM, rat(60, 1))],
            time: Rat::one(),
        }],
        modules: vec![(b"Productivity 1".to_vec(), Module::Productivity1)],
    }
}

fn parse(s: &str) -> Vec<Node> {
    Node::from_bytes(&s.as_bytes().to_vec()).unwrap()
}

#[test]
fn get_line_is_idempotent_and_keeps_the_index() {
    let mut d = Design::new();
    let first = d.get_line(WATER, &b"w".to_vec()).unwrap();
    let again = d.get_line(WATER, &b"w".to_vec()).unwrap();
    assert_eq!(first.index, again.index);
    assert_eq!(first.index, 0);
    let other = d.get_line(STEAM, &b"s".to_vec()).unwrap();
    assert_eq!(other.index, 1);
    let third = d.get_line(WATER, &b"w".to_vec()).unwrap();
    assert_eq!(third.index, 0);
    assert_eq!(d.next_index, 2);
}

#[test]
fn get_line_rejects_a_reused_name_with_another_type() {
    let mut d = Design::new();
    d.get_line(WATER, &b"w".to_vec()).unwrap();
    assert!(matches!(d.get_line(STEAM, &b"w".to_vec()), Err(InputError::TypeMismatch)));
}

#[test]
fn boundary_blocks_declare_lines() {
    let cat = small_catalog();
    let data = parse("Inputs\n  Water\n    win\nOutputs\n  Steam\n    sout\n");
    let d = Design::from_data(&cat, &data).unwrap();
    assert_eq!(d.resource_lines.len(), 2);
    assert_eq!(d.input_lines.len(), 1);
    assert_eq!(d.output_lines.len(), 1);
    assert_eq!(d.normalized_var, Some(1));
    assert_eq!(d.next_index, 2);
}

#[test]
fn first_output_line_becomes_the_anchor() {
    let cat = small_catalog();
    let data = parse("Outputs\n  Steam\n    a\n  Water\n    b\n");
    let d = Design::from_data(&cat, &data).unwrap();
    assert_eq!(d.normalized_var, Some(0));
}

#[test]
fn unknown_resource_fails() {
    let cat = small_catalog();
    let data = parse("Inputs\n  Lava\n    x\n");
    assert!(matches!(Design::from_data(&cat, &data), Err(InputError::UnknownResource)));
}

#[test]
fn unknown_building_fails() {
    let cat = small_catalog();
    let data = parse("Reactor\n  Boiling\n");
    assert!(matches!(Design::from_data(&cat, &data), Err(InputError::UnknownBuilding)));
}

#[test]
fn unknown_recipe_fails() {
    let cat = small_catalog();
    let data = parse("Boiler\n  Brewing\n");
    assert!(matches!(Design::from_data(&cat, &data), Err(InputError::UnknownRecipe)));
}

#[test]
fn building_without_recipe_fails() {
    let cat = small_catalog();
    let data = parse("Boiler\n");
    assert!(matches!(Design::from_data(&cat, &data), Err(InputError::MissingRecipe)));
}

#[test]
fn boundary_leaf_with_children_fails() {
    let cat = small_catalog();
    let data = parse("Inputs\n  Water\n    w\n      deep\n");
    assert!(matches!(Design::from_data(&cat, &data), Err(InputError::UnexpectedInputChild)));
    let data = parse("Outputs\n  Steam\n    s\n      deep\n");
    assert!(matches!(Design::from_data(&cat, &data), Err(InputError::UnexpectedOutputChild)));
}

#[test]
fn unit_input_must_name_exactly_one_line() {
    let cat = small_catalog();
    let text = "Boiler\n  Boiling\n  Inputs\n    Water: a, b\n";
    let data = parse(text);
    assert!(matches!(Design::from_data(&cat, &data), Err(InputError::InputLineCount)));
}

#[test]
fn undeclared_recipe_input_fails() {
    let cat = small_catalog();
    let text = "Boiler\n  Boiling\n  Inputs\n    Steam\n      s\n";
    let data = parse(text);
    assert!(matches!(Design::from_data(&cat, &data), Err(InputError::InvalidRecipeInput)));
}

#[test]
fn repeated_recipe_input_fails() {
    let cat = small_catalog();
    let text = "Boiler\n  Boiling\n  Inputs\n    Water\n      a\n    Water\n      b\n";
    let data = parse(text);
    assert!(matches!(Design::from_data(&cat, &data), Err(InputError::InvalidRecipeInput)));
}

#[test]
fn unfilled_requirements_fail() {
    let cat = small_catalog();
    let text = "Boiler\n  Boiling\n  Inputs\n    Water\n      w\n";
    let data = parse(text);
    assert!(matches!(Design::from_data(&cat, &data), Err(InputError::UnfilledInputs)));
    let text = "Boiler\n  Boiling\n  Inputs\n    Water\n      w\n    Solid Fuel\n      f\n";
    let data = parse(text);
    assert!(matches!(Design::from_data(&cat, &data), Err(InputError::UnfilledOutputs)));
}

#[test]
fn bad_module_count_fails() {
    let cat = small_catalog();
    let text = "Boiler\n  Boiling\n  Modules\n    Productivity 1\n      many\n";
    let data = parse(text);
    assert!(matches!(Design::from_data(&cat, &data), Err(InputError::InvalidModuleCount)));
}

#[test]
fn unknown_module_fails() {
    let cat = small_catalog();
    let text = "Boiler\n  Boiling\n  Modules\n    Velocity 9\n";
    let data = parse(text);
    assert!(matches!(Design::from_data(&cat, &data), Err(InputError::UnknownModule)));
}

#[test]
fn full_unit_builds_with_modules_and_shared_index_space() {
    let cat = small_catalog();
    let text = "Inputs\n  Water\n    w\n  Solid Fuel\n    f\nOutputs\n  Steam\n    s\nBoiler\n  Boiling (Solid Fuel)\n  Inputs\n    Water\n      w\n    Solid Fuel\n      f\n  Outputs\n    Steam\n      s\n  Modules\n    Productivity 1\n      2\n";
    let data = parse(text);
    let d = Design::from_data(&cat, &data).unwrap();
    assert_eq!(d.resource_lines.len(), 3);
    assert_eq!(d.buildings.len(), 1);
    assert_eq!(d.next_index, 4);
    assert_eq!(d.buildings[0].index, 3);
    assert_eq!(d.buildings[0].modules, vec![(Module::Productivity1, 2)]);
    assert_eq!(d.buildings[0].recipe.inputs.len(), 2);
    assert_eq!(d.buildings[0].recipe.outputs.len(), 1);
    // Quantities come from the template, lines from the declaration.
    assert!(d.buildings[0].recipe.inputs[0].1.eq_rat(&rat(60, 1)));
    assert!(d.buildings[0].recipe.inputs[1].1.eq_rat(&rat(18, 125)));
}

#[test]
fn names_resolve_case_insensitively_and_through_aliases() {
    let cat = small_catalog();
    assert_eq!(cat.resolve_resource(&b"water".to_vec()), Some(WATER));
    assert_eq!(cat.resolve_resource(&b"WATER".to_vec()), Some(WATER));
    assert_eq!(cat.resolve_recipe(&b"boiling".to_vec()), Some(0));
    assert_eq!(cat.resolve_recipe(&b"BOILING (solid FUEL)".to_vec()), Some(0));
    assert_eq!(cat.resolve_building(&b"boiler".to_vec()), Some(0));
    assert_eq!(cat.resolve_module(&b"productivity 1".to_vec()), Some(Module::Productivity1));
    assert_eq!(cat.resolve_resource(&b"lava".to_vec()), None);
}

#[test]
fn labels_that_are_not_text_are_a_decoding_failure() {
    let cat = small_catalog();
    let bad = Node { value: vec![0xFF, 0xFE], children: vec![] };
    assert!(matches!(
        Design::from_data(&cat, &vec![bad]),
        Err(InputError::DecodeFailure)
    ));
    // A stray continuation byte inside an otherwise plain label fails
    // too.
    let bad = Node { value: vec![b'w', 0x80], children: vec![] };
    let tree = Node { value: b"Inputs".to_vec(), children: vec![Node {
        value: b"Water".to_vec(),
        children: vec![bad],
    }] };
    assert!(matches!(
        Design::from_data(&cat, &vec![tree]),
        Err(InputError::DecodeFailure)
    ));
}

#[test]
fn multibyte_text_labels_are_accepted() {
    let cat = small_catalog();
    let data = parse("Inputs\n  Water\n    caf\u{e9}\n");
    let d = Design::from_data(&cat, &data).unwrap();
    assert_eq!(d.resource_lines.len(), 1);
}

#[test]
fn other_property_labels_are_ignored() {
    let cat = small_catalog();
    let text = "Boiler\n  Boiling\n  Inputs\n    Water\n      w\n    Solid Fuel\n      f\n  Outputs\n    Steam\n      s\n  Notes\n    anything at all\n";
    let data = parse(text);
    assert!(Design::from_data(&cat, &data).is_ok());
}
