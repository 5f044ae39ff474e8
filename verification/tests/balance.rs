use steadyflow::catalog::{BuildingTemplate, Catalog, RecipeTemplate};
use steadyflow::clean::clean;
use steadyflow::design::Design;
use steadyflow::node::Node;
use steadyflow::rat::Rat;
use steadyflow::AnalyzeError;

const COAL: u32 = 1;
const WATER: u32 = 2;
const SOLID_FUEL: u32 = 3;
const STEAM: u32 = 4;
const HEAVY_OIL: u32 = 5;
const LIGHT_OIL: u32 = 6;
const PETROLEUM: u32 = 7;

fn rat(n: i64, d: i64) -> Rat {
    Rat::new(n, d).unwrap()
}

fn oil_catalog() -> Catalog {
    Catalog {
        resources: vec![
            (b"Coal".to_vec(), COAL),
            (b"Water".to_vec(), WATER),
            (b"Solid Fuel".to_vec(), SOLID_FUEL),
            (b"Steam".to_vec(), STEAM),
            (b"Heavy Oil".to_vec(), HEAVY_OIL),
            (b"Light Oil".to_vec(), LIGHT_OIL),
            (b"Petroleum".to_vec(), PETROLEUM),
            (b"Petroleum Gas".to_vec(), PETROLEUM),
        ],
        buildings: vec![
            BuildingTemplate {
                name: b"Oil Refinery".to_vec(),
                energy_consumption: rat(420, 1),
                crafting_speed: Rat::one(),
            },
            BuildingTemplate {
                name: b"Chemical Plant".to_vec(),
                energy_consumption: rat(210, 1),
                crafting_speed: rat(5, 4),
            },
            BuildingTemplate {
                name: b"Boiler".to_vec(),
                energy_consumption: Rat::zero(),
                crafting_speed: Rat::one(),
            },
        ],
        recipes: vec![
            RecipeTemplate {
                name: b"Coal liquefaction".to_vec(),
                aliases: vec![],
                inputs: vec![
                    (COAL, rat(10, 1)),
                    (HEAVY_OIL, rat(25, 1)),
                    (STEAM, rat(50, 1)),
                ],
                outputs: vec![
                    (HEAVY_OIL, rat(35, 1)),
                    (LIGHT_OIL, rat(15, 1)),
                    (PETROLEUM, rat(20, 1)),
                ],
                time: rat(5, 1),
            },
            RecipeTemplate {
                name: b"Heavy oil cracking".to_vec(),
                aliases: vec![],
                inputs: vec![(HEAVY_OIL, rat(40, 1)), (WATER, rat(30, 1))],
                outputs: vec![(LIGHT_OIL, rat(30, 1))],
                time: rat(3, 1),
            },
            RecipeTemplate {
                name: b"Solid Fuel (Light Oil)".to_vec(),
                aliases: vec![b"Solid Fuel (Light)".to_vec()],
                inputs: vec![(LIGHT_OIL, rat(10, 1))],
                outputs: vec![(SOLID_FUEL, rat(1, 1))],
                time: rat(3, 1),
            },
            RecipeTemplate {
                name: b"Solid Fuel (Petroleum)".to_vec(),
                aliases: vec![b"Solid Fuel (Petroleum Gas)".to_vec()],
                inputs: vec![(PETROLEUM, rat(20, 1))],
                outputs: vec![(SOLID_FUEL, rat(1, 1))],
                time: rat(3, 1),
            },
            RecipeTemplate {
                name: b"Boiling (Solid Fuel)".to_vec(),
                aliases: vec![],
                inputs: vec![(WATER, rat(60, 1)), (SOLID_FUEL, rat(144, 1000))],
                outputs: vec![(STEAM, rat(60, 1))],
                time: Rat::one(),
            },
        ],
        modules: vec![],
    }
}

fn run(cat: &Catalog, text: &str) -> Result<(Design, Result<Vec<Rat>, AnalyzeError>), String> {
    let cleaned = clean(&text.as_bytes().to_vec());
    let data = Node::from_bytes(&cleaned).map_err(|_| "parse".to_string())?;
    let design = Design::from_data(cat, &data).map_err(|e| e.message().to_string())?;
    let analysis = design.analyze();
    Ok((design, analysis))
}

#[test]
fn single_boiler_solves_exactly() {
    let cat = oil_catalog();
    let text = "\
Inputs
    Water
        w
    Solid Fuel
        sf
Outputs
    Steam
        st
Boiler
    Boiling (Solid Fuel)
    Inputs
        Water
            w
        Solid Fuel
            sf
    Outputs
        Steam
            st
";
    let (_d, analysis) = run(&cat, text).unwrap();
    let x = analysis.unwrap();
    // Indices: w = 0, sf = 1, st = 2, boiler = 3.
    assert_eq!(x.len(), 4);
    assert_eq!((x[2].num(), x[2].den()), (1, 1));
    assert_eq!((x[3].num(), x[3].den()), (1, 60));
    assert_eq!((x[0].num(), x[0].den()), (-1, 1));
    assert_eq!((x[1].num(), x[1].den()), (-3, 1250));
}

#[test]
fn coal_to_solid_fuel_chain_consumes_its_inputs() {
    let cat = oil_catalog();
    let text = "\
# Coal to solid fuel, with the boiler fed from the fuel line.
Inputs
    Coal
        coal_in
    Water
        water_in
Outputs
    Solid Fuel
        fuel_out
Oil Refinery
    Coal liquefaction
    Inputs
        Coal
            coal_in
        Heavy Oil
            heavy
        Steam
            steam
    Outputs
        Heavy Oil
            heavy
        Light Oil
            light
        Petroleum
            petrol
Chemical Plant
    Heavy oil cracking
    Inputs
        Heavy Oil
            heavy
        Water
            water_in
    Outputs
        Light Oil
            light
Chemical Plant
    Solid Fuel (Light Oil)
    Inputs
        Light Oil
            light
    Outputs
        Solid Fuel
            fuel_out
Chemical Plant
    Solid Fuel (Petroleum)
    Inputs
        Petroleum
            petrol
    Outputs
        Solid Fuel
            fuel_out
Boiler
    Boiling (Solid Fuel)
    Inputs
        Water
            water_in
        Solid Fuel
            fuel_out
    Outputs
        Steam
            steam
";
    let (d, analysis) = run(&cat, text).unwrap();
    let x = analysis.unwrap();
    assert_eq!(x.len(), 12);
    // The normalized output nets exactly one per second.
    let fuel = &x[2];
    assert_eq!((fuel.num(), fuel.den()), (1, 1));
    // Both declared inputs are net-consumed: negative rates.
    let coal = &x[0];
    let water = &x[1];
    assert!(coal.is_neg());
    assert!(water.is_neg());
    assert_eq!((coal.num(), coal.den()), (-1000, 313));
    assert_eq!((water.num(), water.den()), (-5750, 313));
    // The refinery's activity, at the index the design assigned it:
    // its own recipe lines (heavy, steam, light, petrol) were created
    // first, so the unit sits at the next shared index.
    assert_eq!(d.buildings[0].index, 7);
    assert_eq!((x[7].num(), x[7].den()), (500, 313));
}

#[test]
fn missing_output_means_no_anchor() {
    let cat = oil_catalog();
    let text = "\
Inputs
    Water
        w
";
    let (_d, analysis) = run(&cat, text).unwrap();
    assert!(matches!(analysis, Err(AnalyzeError::NoNormalization)));
}

#[test]
fn unproduced_output_line_is_an_analysis_error() {
    // The anchor line `f` is declared an output but no unit produces or
    // consumes it, so the assembled system is singular: the solver must
    // surface an analysis error, never a vector.
    let cat = oil_catalog();
    let text = "\
Inputs
    Water
        w
    Solid Fuel
        sfin
Outputs
    Solid Fuel
        f
    Steam
        st
Boiler
    Boiling (Solid Fuel)
    Inputs
        Water
            w
        Solid Fuel
            sfin
    Outputs
        Steam
            st
";
    let (_d, analysis) = run(&cat, text).unwrap();
    assert!(matches!(analysis, Err(AnalyzeError::Singular)));
}

#[test]
fn non_square_system_is_an_analysis_error() {
    // Two units share one recipe wiring, leaving more equations than
    // unknowns.
    let cat = oil_catalog();
    let text = "\
Outputs
    Steam
        st
Boiler
    Boiling (Solid Fuel)
    Inputs
        Water
            w
        Solid Fuel
            sf
    Outputs
        Steam
            st
";
    // Lines: st, w, sf (w and sf internal); unit: 1.  Rows: 3 balance +
    // 2 closure + 1 normalization = 6, columns 4.
    let (_d, analysis) = run(&cat, text).unwrap();
    assert!(matches!(analysis, Err(AnalyzeError::NonSquare)));
}

#[test]
fn zero_time_recipe_is_a_rate_error() {
    let mut cat = oil_catalog();
    cat.recipes.push(RecipeTemplate {
        name: b"Instant".to_vec(),
        aliases: vec![],
        inputs: vec![(WATER, rat(1, 1))],
        outputs: vec![(STEAM, rat(1, 1))],
        time: Rat::zero(),
    });
    let text = "\
Inputs
    Water
        w
Outputs
    Steam
        st
Boiler
    Instant
    Inputs
        Water
            w
    Outputs
        Steam
            st
";
    let (_d, analysis) = run(&cat, text).unwrap();
    assert!(matches!(analysis, Err(AnalyzeError::ZeroRate)));
}
