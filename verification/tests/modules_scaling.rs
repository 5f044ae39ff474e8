use steadyflow::catalog::{BuildingTemplate, Catalog, RecipeTemplate};
use steadyflow::design::Design;
use steadyflow::modifier::{Modifiers, Module};
use steadyflow::node::Node;
use steadyflow::rat::Rat;

const WATER: u32 = 1;
const STEAM: u32 = 2;

fn rat(n: i64, d: i64) -> Rat {
    Rat::new(n, d).unwrap()
}

fn cat() -> Catalog {
    Catalog {
        resources: vec![(b"Water".to_vec(), WATER), (b"Steam".to_vec(), STEAM)],
        buildings: vec![BuildingTemplate {
            name: b"Boiler".to_vec(),
            energy_consumption: rat(210, 1),
            crafting_speed: Rat::one(),
        }],
        recipes: vec![RecipeTemplate {
            name: b"Boiling".to_vec(),
            aliases: vec![],
            inputs: vec![(WATER, rat(60, 1))],
            outputs: vec![(STEAM, rat(60, 1))],
            time: Rat::one(),
        }],
        modules: vec![
            (b"Productivity 1".to_vec(), Module::Productivity1),
            (b"Speed 3".to_vec(), Module::Speed3),
            (b"Efficiency 1".to_vec(), Module::Efficiency1),
            (b"Efficiency 3".to_vec(), Module::Efficiency3),
        ],
    }
}

fn unit_with_modules(modules_block: &str) -> steadyflow::design::Building {
    let text = format!(
        "Boiler\n  Boiling\n  Inputs\n    Water\n      w\n  Outputs\n    Steam\n      s\n{}",
        modules_block,
    );
    let data = Node::from_bytes(&text.as_bytes().to_vec()).unwrap();
    let mut d = Design::from_data(&cat(), &data).unwrap();
    d.buildings.pop().unwrap()
}

#[test]
fn modifiers_accumulate_per_kind_and_count() {
    let ms = vec![(Module::Productivity1, 2i16), (Module::Speed3, 1i16), (
        Module::Efficiency1,
        1i16,
    )];
    let m = Modifiers::from_modules(&ms);
    assert_eq!(m.speed_centi, -30 + 50);
    assert_eq!(m.productivity_centi, 8);
    assert_eq!(m.energy_centi, 100 + 80 + 70 - 30);
}

#[test]
fn modifiers_of_empty_list_are_neutral() {
    let m = Modifiers::new();
    assert_eq!(m.speed_centi, 0);
    assert_eq!(m.productivity_centi, 0);
    assert_eq!(m.energy_centi, 100);
}

#[test]
fn productivity_scales_outputs_and_slows_the_unit() {
    for n in [1i64, 2, 5] {
        let b = unit_with_modules(&format!("  Modules\n    Productivity 1\n      {}\n", n));
        let rc = b.modified_recipe().unwrap();
        // Each output quantity is scaled by exactly 1 + 0.04 n.
        let expected_out = rat(60, 1).mul(&rat(100 + 4 * n, 100)).unwrap();
        assert!(rc.outputs[0].1.eq_rat(&expected_out));
        // Inputs are never scaled by productivity.
        assert!(rc.inputs[0].1.eq_rat(&rat(60, 1)));
        // The effective time is the base time over speed scaled by
        // 1 - 0.15 n.
        let expected_time = Rat::one().div(&rat(100 - 15 * n, 100)).unwrap();
        assert!(rc.time.eq_rat(&expected_time));
    }
}

#[test]
fn two_productivity_modules_exactly() {
    let b = unit_with_modules("  Modules\n    Productivity 1\n      2\n");
    let rc = b.modified_recipe().unwrap();
    // 60 * 1.08 = 64.8 = 324/5.
    assert_eq!(rc.outputs[0].1.num(), 324);
    assert_eq!(rc.outputs[0].1.den(), 5);
    // 1 / 0.7 = 10/7.
    assert_eq!(rc.time.num(), 10);
    assert_eq!(rc.time.den(), 7);
    // Energy: 210 * (1 + 0.8) = 378.
    let e = b.modified_energy_consumption().unwrap();
    assert_eq!(e.num(), 378);
    assert_eq!(e.den(), 1);
}

#[test]
fn energy_multiplier_is_floored_at_one_fifth() {
    // Three tier-three efficiency modules push the multiplier to -0.5;
    // the effective draw is clamped at 0.2 * 210 = 42, never an error.
    let b = unit_with_modules("  Modules\n    Efficiency 3\n      3\n");
    let e = b.modified_energy_consumption().unwrap();
    assert_eq!(e.num(), 42);
    assert_eq!(e.den(), 1);
}

#[test]
fn energy_above_the_floor_is_linear() {
    let b = unit_with_modules("  Modules\n    Efficiency 1\n      1\n");
    let e = b.modified_energy_consumption().unwrap();
    assert_eq!(e.num(), 147);
    assert_eq!(e.den(), 1);
}

#[test]
fn module_count_defaults_to_one() {
    let b = unit_with_modules("  Modules\n    Speed 3\n");
    assert_eq!(b.modules, vec![(Module::Speed3, 1)]);
    let rc = b.modified_recipe().unwrap();
    // Speed 1.5: effective time 1 / 1.5 = 2/3.
    assert_eq!(rc.time.num(), 2);
    assert_eq!(rc.time.den(), 3);
}

#[test]
fn display_names() {
    assert_eq!(Module::Productivity1.display_name(), "Productivity 1");
    assert_eq!(Module::Efficiency3.display_name(), "Efficiency 3");
    assert_eq!(Module::Speed2.display_name(), "Speed 2");
}
