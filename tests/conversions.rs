use unit_calc::driver::{substitute_previous_answer, try_extract_chemical, Plan, Step};
use unit_calc::elements::{extract_elements, formula_name, parse_element_line, ElementTable};
use unit_calc::error::Error;
use unit_calc::parse::{
    extract_unit, extract_value_and_units, parse_alias_list, parse_conversion, Request,
};
use unit_calc::registry::{Conversion, Registry};
use unit_calc::text::chars_of;

/// Where numbers start in a line, read as the application reads them.
fn numbers(chars: &[char]) -> Vec<Option<(f64, usize)>> {
    (0..chars.len())
        .map(|i| {
            let rest: String = chars[i..].iter().collect();
            match fast_float::parse_partial::<f64, _>(&rest) {
                Ok((v, n)) if n > 0 => Some((v, rest[..n].chars().count())),
                _ => None,
            }
        })
        .collect()
}

fn define(reg: &mut Registry<f64>, line: &str) {
    let chars = chars_of(line);
    if line.starts_with('#') {
        reg.create_unit(&parse_alias_list(line)).unwrap();
    } else {
        reg.create_conversion(&chars, &numbers(&chars), 1.0).unwrap();
    }
}

fn value_of(plan: &Plan<f64>) -> f64 {
    let mut v = 1.0;
    for (c, divide) in &plan.request.coefficients {
        if *divide {
            v /= c;
        } else {
            v *= c;
        }
    }
    for s in &plan.steps {
        v = v * s.top_value / s.bottom_value;
    }
    v
}

fn convert(reg: &Registry<f64>, line: &str) -> Result<Plan<f64>, Error> {
    let chars = chars_of(line);
    reg.convert(&chars, &numbers(&chars), None)
}

fn lengths() -> Registry<f64> {
    let mut reg = Registry::new();
    define(&mut reg, "#meter, m, meters;");
    define(&mut reg, "#kilometer, km;");
    define(&mut reg, "$1 km = 1000 m;");
    reg
}

fn close(a: f64, b: f64) -> bool {
    (a - b).abs() <= 1e-9 * b.abs().max(1.0)
}

#[test]
fn kilometers_to_meters() {
    let reg = lengths();
    let plan = convert(&reg, "5 km : m;").unwrap();
    assert_eq!(value_of(&plan), 5000.0);
    assert_eq!(plan.steps.len(), 1);
    assert_eq!(plan.request.ending_numers, vec![0]);
    let (top, name) = plan.steps[0].get_top(&reg).unwrap();
    assert_eq!(top, 1000.0);
    assert_eq!(name, "meter");
    let (bottom, name) = plan.steps[0].get_bottom(&reg).unwrap();
    assert_eq!(bottom, 1.0);
    assert_eq!(name, "kilometer");
}

#[test]
fn same_units_are_the_identity() {
    let mut reg = Registry::new();
    define(&mut reg, "#mile;");
    define(&mut reg, "#hour;");
    let plan = convert(&reg, "60 mile/hour : mile/hour;").unwrap();
    assert_eq!(plan.steps.len(), 0);
    assert_eq!(value_of(&plan), 60.0);
}

#[test]
fn unknown_unit_is_reported() {
    let reg = lengths();
    let before = reg.list_units();
    match convert(&reg, "3 foo : meters;") {
        Err(Error::UnknownUnit(name)) => assert_eq!(name, "foo"),
        _ => panic!("expected an unknown unit"),
    }
    assert_eq!(reg.list_units(), before);
}

fn water_elements() -> ElementTable<f64> {
    let mut table = ElementTable::new();
    table.create_element(&vec!["H".to_string(), "hydrogen".to_string()], 1.008).unwrap();
    table.create_element(&vec!["O".to_string(), "oxygen".to_string()], 15.999).unwrap();
    table
}

#[test]
fn chemical_formula_units() {
    let table = water_elements();
    let mut reg = lengths();
    let (rest, formula) = try_extract_chemical(&chars_of("[H2O] : grams;"));
    let formula: String = formula.unwrap().into_iter().collect();
    assert_eq!(formula, "H2O");
    let entries = extract_elements(&formula, &table).unwrap();
    assert_eq!(entries, vec![(1, 2), (2, 1)]);
    let name = formula_name(&entries, &table).unwrap();
    assert_eq!(name, "H\u{2082}O");
    let mut molar_mass = 0.0;
    for (n, count) in &entries {
        molar_mass += table.get_element(*n).unwrap().molar_mass * f64::from(*count);
    }
    assert!(close(molar_mass, 18.015));
    let chem = reg.insert_chemical_units(
        &name,
        Conversion::new(molar_mass, 1.0),
        Conversion::new(6.02214076e23, 1.0),
    );
    let names: Vec<String> = reg.list_units().into_iter().map(|(_, n)| n).collect();
    assert!(names.contains(&"grams[H\u{2082}O]".to_string()));
    let plan = reg.convert(&rest, &numbers(&rest), Some(chem)).unwrap();
    assert_eq!(plan.request.starting_numers, vec![chem.moles]);
    assert_eq!(plan.request.ending_numers, vec![chem.grams]);
    assert_eq!(plan.steps.len(), 1);
    assert!(close(value_of(&plan), 18.015));
}

#[test]
fn conversion_round_trip() {
    let reg = lengths();
    let there = convert(&reg, "1 km : m;").unwrap();
    let v = value_of(&there);
    let back = convert(&reg, &format!("{} m : km;", v)).unwrap();
    assert!(close(value_of(&back), 1.0));
    assert_eq!(there.steps[0].top_value, back.steps[0].bottom_value);
    assert_eq!(there.steps[0].bottom_value, back.steps[0].top_value);
}

#[test]
fn path_lengths_are_symmetric() {
    let mut reg = lengths();
    define(&mut reg, "#centimeter, cm;");
    define(&mut reg, "$1 m = 100 cm;");
    let graph = reg.generate_graph();
    let (_, from_km) = unit_calc::algorithm::bfs(&graph, 1);
    let (_, from_cm) = unit_calc::algorithm::bfs(&graph, 2);
    assert_eq!(from_km[2], 2);
    assert_eq!(from_cm[1], 2);
}

#[test]
fn mismatched_sides_are_refused() {
    let mut reg = lengths();
    define(&mut reg, "#second, s;");
    assert_eq!(convert(&reg, "1 m * s : km;").err(), Some(Error::MismatchedQuantityShape));
    assert_eq!(convert(&reg, "1 m / s : km;").err(), Some(Error::MismatchedQuantityShape));
}

fn definition_lines() -> Vec<(Vec<char>, Vec<Option<(f64, usize)>>)> {
    ["#meter, m;", "#kilometer, km;", "$ 1 km = 1000 m;", "not a definition", "#second, s;"]
        .iter()
        .map(|l| {
            let chars = chars_of(l);
            let nums = numbers(&chars);
            (chars, nums)
        })
        .collect()
}

#[test]
fn reload_is_idempotent() {
    let mut reg: Registry<f64> = Registry::new();
    define(&mut reg, "#foot, ft;");
    let lines = definition_lines();
    assert!(reg.reload(&lines, 1.0).is_empty());
    let first = reg.list_units();
    assert!(reg.reload(&lines, 1.0).is_empty());
    assert_eq!(reg.list_units(), first);
    assert_eq!(
        first,
        vec![(0, "meter".to_string()), (1, "kilometer".to_string()), (2, "second".to_string())]
    );
}

#[test]
fn compound_units_convert_both_parts() {
    let mut reg = Registry::new();
    define(&mut reg, "#mile, mi;");
    define(&mut reg, "#kilometer, km;");
    define(&mut reg, "#hour, h;");
    define(&mut reg, "#minute, min;");
    define(&mut reg, "$1 mile = 1.609344 km;");
    define(&mut reg, "$1 hour = 60 min;");
    let plan = convert(&reg, "60 mile/hour : km/min;").unwrap();
    assert_eq!(plan.steps.len(), 2);
    assert!(close(value_of(&plan), 1.609344));
    assert_eq!(plan.steps[1].top_id, 2);
    assert_eq!(plan.steps[1].bottom_id, 3);
}

#[test]
fn coefficients_multiply_and_divide() {
    let reg = lengths();
    let plan = convert(&reg, "6 km / 3 : m;").unwrap();
    assert_eq!(value_of(&plan), 2000.0);
}

#[test]
fn exponents_repeat_units() {
    let reg = lengths();
    let chars = chars_of("2 km^2 : m * m;");
    let req: Request<f64> = extract_value_and_units(&chars, &numbers(&chars), reg.aliases()).unwrap();
    assert_eq!(req.starting_numers, vec![1, 1]);
    assert_eq!(req.ending_numers, vec![0, 0]);
    let plan = convert(&reg, "2 km^2 : m * m;").unwrap();
    assert_eq!(value_of(&plan), 2_000_000.0);
    let chars = chars_of("1 km^-1 : m;");
    let req: Request<f64> = extract_value_and_units(&chars, &numbers(&chars), reg.aliases()).unwrap();
    assert!(req.starting_numers.is_empty());
}

#[test]
fn request_errors() {
    let reg = lengths();
    assert_eq!(convert(&reg, "1 km^x : m;").err(), Some(Error::InvalidExponent));
    assert_eq!(convert(&reg, "1 km : 2 m;").err(), Some(Error::NumberAfterPivot));
    assert_eq!(convert(&reg, "1 km;").err(), Some(Error::MissingPivot));
    assert_eq!(convert(&reg, "5 : ;").err(), Some(Error::ImpossibleConversion));
}

#[test]
fn unconnected_units_are_impossible() {
    let mut reg = lengths();
    define(&mut reg, "#second, s;");
    assert_eq!(convert(&reg, "1 km : s;").err(), Some(Error::ImpossibleConversion));
}

#[test]
fn registry_errors() {
    let mut reg = lengths();
    assert_eq!(reg.create_unit(&vec![]), Err(Error::EmptyAliasList));
    assert_eq!(parse_alias_list("#;"), Vec::<String>::new());
    let chars = chars_of("$1 km = 1 mile;");
    assert_eq!(
        reg.create_conversion(&chars, &numbers(&chars), 1.0),
        Err(Error::UnknownAlias("mile".to_string()))
    );
    let chars = chars_of("$1 km = 1 km;");
    assert_eq!(reg.create_conversion(&chars, &numbers(&chars), 1.0), Err(Error::SelfConversion));
    let chars = chars_of("$1 km 1000 m;");
    assert_eq!(
        reg.create_conversion(&chars, &numbers(&chars), 1.0),
        Err(Error::MalformedConversion)
    );
    assert_eq!(reg.lookup(&"yard".to_string()), Err(Error::UnknownAlias("yard".to_string())));
    assert_eq!(reg.lookup(&"km".to_string()), Ok(1));
}

#[test]
fn alias_lists() {
    assert_eq!(parse_alias_list("#meter, m, meters;"), vec!["meter", "m", "meters"]);
    assert_eq!(parse_alias_list("#  gram,g;"), vec!["gram", "g"]);
    assert_eq!(parse_alias_list("#foot, ft|feet;"), vec!["foot", "ftfeet", "ft"]);
}

#[test]
fn later_aliases_win() {
    let mut reg = lengths();
    define(&mut reg, "#mile, m;");
    assert_eq!(reg.lookup(&"m".to_string()), Ok(2));
    assert_eq!(reg.lookup(&"meters".to_string()), Ok(0));
}

#[test]
fn conversion_definitions() {
    let chars = chars_of("$ 2.5 km = 2500 m;");
    let (a, b, c) = parse_conversion(&chars, &numbers(&chars), 1.0).unwrap();
    assert_eq!(a, "km");
    assert_eq!(b, "m");
    assert_eq!((c.numerator, c.denominator), (2500.0, 2.5));
    let chars = chars_of("$ km = m;");
    let (_, _, c) = parse_conversion(&chars, &numbers(&chars), 1.0).unwrap();
    assert_eq!((c.numerator, c.denominator), (1.0, 1.0));
}

#[test]
fn unit_names_are_trimmed() {
    let chars = chars_of("  km  = 5;");
    assert_eq!(extract_unit(&chars, 0, &vec!['=']), Some(("km".to_string(), 7, '=')));
    assert_eq!(extract_unit(&chars, 0, &vec!['*']), None);
}

#[test]
fn previous_answer() {
    let line = chars_of("ans : m;");
    assert_eq!(substitute_previous_answer(&line, &None), Err(Error::NoPreviousAnswer));
    let s: String = substitute_previous_answer(&line, &Some("5 km".to_string()))
        .unwrap()
        .into_iter()
        .collect();
    assert_eq!(s, "5 km : m;");
    let plain = chars_of("5 km : m;");
    assert_eq!(substitute_previous_answer(&plain, &None), Ok(plain.clone()));
}

#[test]
fn formula_brackets() {
    let (rest, formula) = try_extract_chemical(&chars_of("2 [CO2] : grams;"));
    assert_eq!(rest.into_iter().collect::<String>(), "2  : grams;");
    assert_eq!(formula.unwrap().into_iter().collect::<String>(), "CO2");
    let (rest, formula) = try_extract_chemical(&chars_of("2 [CO2 : grams;"));
    assert_eq!(rest.into_iter().collect::<String>(), "2 [CO2 : grams;");
    assert!(formula.is_none());
}

#[test]
fn formula_errors() {
    let table = water_elements();
    assert_eq!(extract_elements("HXe", &table), Err(Error::UnknownElement("Xe".to_string())));
    assert_eq!(extract_elements("H99999", &table), Err(Error::InvalidSubscript));
    assert_eq!(extract_elements("OH12", &table), Ok(vec![(2, 1), (1, 12)]));
    assert_eq!(formula_name(&vec![(2, 1), (1, 12)], &table), Some("OH\u{2081}\u{2082}".to_string()));
    assert_eq!(formula_name(&vec![(7, 1)], &table), None);
}

#[test]
fn element_definitions() {
    let chars = chars_of("H, hydrogen =  1.008");
    let (names, at) = parse_element_line(&chars).unwrap();
    assert_eq!(names, vec!["H", "hydrogen"]);
    assert_eq!(chars[at], '1');
    assert_eq!(parse_element_line(&chars_of("H, hydrogen")), None);
}

#[test]
fn subscripts() {
    assert_eq!(unit_calc::text::subscript_number(0), "\u{2080}");
    assert_eq!(unit_calc::text::subscript_number(1209), "\u{2081}\u{2082}\u{2080}\u{2089}");
}

#[test]
fn step_of_conversion() {
    let s: Step<f64> = Step::of(&Conversion::new(3.0, 4.0), 7, 9);
    assert_eq!((s.top_value, s.top_id, s.bottom_value, s.bottom_id), (3.0, 9, 4.0, 7));
    let c = Conversion::new(3.0, 4.0).inverse();
    assert_eq!((c.numerator, c.denominator), (4.0, 3.0));
}
