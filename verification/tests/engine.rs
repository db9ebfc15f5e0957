use double_agentx::config::Metric;
use double_agentx::convert::{convert, ConvertError, FloatOp, MibType, Outcome};
use double_agentx::entry::{Entry, RecursiveIterator};
use double_agentx::json::is_plain_path;
use double_agentx::metrics::{
    detect_handler, narrow_integer, resolve_matches, split_command, Resolution, Batch, Cycle, Handler, MibError, Metrics,
};
use double_agentx::oid::{path_equal, path_less};
use double_agentx::text::{split_chain, trim};
use double_agentx::tree::MibTree;
use double_agentx::ident::{as_vec, path_of};
use double_agentx::text::{parse_decimal, parse_dotted};
use double_agentx::value::{Id, SearchRange, VarBind, WireValue};

/// The floating-point arithmetic that the library asks its caller for.
fn answer(op: &FloatOp) -> Option<u32> {
    match op {
        FloatOp::Parse(s) => s.parse::<f32>().ok().map(|f| f.to_bits()),
        FloatOp::Check(s) => s.parse::<f32>().ok().map(|f| f.to_bits()),
        FloatOp::Widen(i) => Some((*i as f32).to_bits()),
        FloatOp::Round(b) => Some(f32::from_bits(*b).round() as u32),
        FloatOp::Scale(b, x) => x.parse::<f32>().ok().map(|f| (f32::from_bits(*b) * f).to_bits()),
        FloatOp::ScaleInteger(i, x) => x.parse::<f32>().ok().map(|f| (*i as f32 * f).to_bits()),
    }
}

fn run_chain(val: MibType, chain: &str) -> Result<MibType, ConvertError> {
    let mut answers: Vec<Option<u32>> = Vec::new();
    loop {
        match convert(val.clone(), chain, &answers, 0)? {
            (Outcome::Value(v), used) => {
                assert_eq!(used, answers.len());
                return Ok(v);
            }
            (Outcome::Float(op), used) => {
                assert_eq!(used, answers.len());
                answers.push(answer(&op));
            }
        }
    }
}

fn text(s: &str) -> MibType {
    MibType::String(s.to_string())
}

fn leaf(name: &str, oid: Vec<u32>, json_path: Option<&str>, chain: Option<&str>) -> Entry {
    Entry {
        convert: chain.map(|s| s.to_string()),
        children: None,
        data_type: None,
        json_path: json_path.map(|s| s.to_string()),
        literal: None,
        name: name.to_string(),
        oid,
        unit: None,
    }
}

fn literal(name: &str, oid: Vec<u32>, value: &str) -> Entry {
    let mut e = leaf(name, oid, None, None);
    e.literal = Some(value.to_string());
    e
}

fn group(name: &str, oid: Vec<u32>, children: Vec<(u32, Entry)>) -> Entry {
    let mut e = leaf(name, oid, None, None);
    e.children = Some(children);
    e
}

fn base() -> Vec<u32> {
    vec![1, 3, 6, 1, 4, 1, 99999]
}

fn metrics_of(mibs: Vec<(u32, Entry)>) -> Metrics {
    let config = Metric {
        command: "rocm-smi --json".to_string(),
        name: "gpu".to_string(),
        relative_oid: vec![2],
        mibs,
    };
    Metrics::new(&base(), config)
}

fn card0() -> Metrics {
    metrics_of(vec![(
        1,
        leaf("temp", vec![2, 1, 5], Some("$.card0.temp"), Some("cast_float,multiply_by(1000),cast_int")),
    )])
}

const CARD0: &str = "{\"card0\":{\"temp\":\"42.5\"}}";

fn rebuild(m: &mut Metrics, stdout: &str) -> Result<(), MibError> {
    let mut answers: Vec<Option<u32>> = Vec::new();
    loop {
        match m.generate_mib(stdout, &answers)? {
            Cycle::Done => return Ok(()),
            Cycle::Float(op) => answers.push(answer(&op)),
        }
    }
}

fn exact(m: &mut Metrics, stdout: &str, ranges: &Vec<SearchRange>) -> Result<Vec<VarBind>, MibError> {
    let mut answers: Vec<Option<u32>> = Vec::new();
    loop {
        match m.get(stdout, &answers, ranges)? {
            Batch::Bindings(v) => return Ok(v),
            Batch::Float(op) => answers.push(answer(&op)),
        }
    }
}

fn range(start: Vec<u32>, inclusive: bool, end: Vec<u32>) -> SearchRange {
    SearchRange { start: Id { inclusive, sub_ids: start }, end: Id::new(end) }
}

#[test]
fn it_works() {
    let vec = vec![1, 3, 6, 1, 2, 1, 1, 1, 0];
    let oid = agentx::encodings::ID::try_from(vec.clone())
        .expect("Failed to convert");
    let result = as_vec(&oid);
    assert_eq!(result, vec);
}

#[test]
fn identifier_components_are_read_from_its_text() {
    let big = agentx::encodings::ID::try_from(vec![4294967295, 0, 10]).expect("Failed to convert");
    assert_eq!(as_vec(&big), vec![4294967295, 0, 10]);
    assert_eq!(path_of(&big), vec![4294967295, 0, 10]);
    let null = agentx::encodings::ID::try_from(Vec::<u32>::new()).expect("Failed to convert");
    assert!(null.is_null());
    assert_eq!(path_of(&null), Vec::<u32>::new());
}

#[test]
fn dotted_text_is_read_as_a_path() {
    assert_eq!(parse_dotted("1.3.6.1"), Some(vec![1, 3, 6, 1]));
    assert_eq!(parse_dotted("7"), Some(vec![7]));
    assert_eq!(parse_dotted("4294967295.0"), Some(vec![4294967295, 0]));
    assert_eq!(parse_dotted(""), None);
    assert_eq!(parse_dotted("1..2"), None);
    assert_eq!(parse_dotted("1.2."), None);
    assert_eq!(parse_dotted(".1"), None);
    assert_eq!(parse_dotted("1.x"), None);
    assert_eq!(parse_dotted("1.4294967296"), None);
    assert_eq!(parse_dotted("1.-2"), None);
}

#[test]
fn command_line_is_split_into_words() {
    assert_eq!(
        split_command("rocm-smi  --showtemp\t--json "),
        Ok(vec!["rocm-smi".to_string(), "--showtemp".to_string(), "--json".to_string()])
    );
    assert_eq!(
        split_command(" /usr/bin/env\tsmi -a 'b c' "),
        Ok(vec!["/usr/bin/env".to_string(), "smi".to_string(), "-a".to_string(), "'b".to_string(), "c'".to_string()])
    );
    assert_eq!(split_command(""), Err(MibError::CommandMissing));
    assert_eq!(split_command(" \t\n"), Err(MibError::CommandMissing));
}

#[test]
fn chain_casts_scales_and_rounds() {
    let out = run_chain(text("53.2"), "cast_float,multiply_by(1000),cast_int");
    assert_eq!(out, Ok(MibType::Integer(53200)));
}

#[test]
fn chain_trims_right() {
    assert_eq!(run_chain(text("abcDE"), "trim_right(2)"), Ok(text("abc")));
}

#[test]
fn chain_trims_both_ends() {
    assert_eq!(run_chain(text("abcde"), "trim(1)"), Ok(text("bcd")));
    assert_eq!(run_chain(text("abcd"), "trim(2)"), Ok(text("")));
    assert_eq!(run_chain(text("abc"), "trim(0)"), Ok(text("abc")));
}

#[test]
fn chain_trims_characters_not_bytes() {
    assert_eq!(run_chain(text("42°C"), "trim_right(2)"), Ok(text("42")));
}

#[test]
fn chain_trim_longer_than_text_fails() {
    assert_eq!(run_chain(text("abc"), "trim_right(4)"), Err(ConvertError::TrimTooLong));
    assert_eq!(run_chain(text("abc"), "trim(2)"), Err(ConvertError::TrimTooLong));
}

#[test]
fn chain_trim_leaves_numbers_alone() {
    assert_eq!(run_chain(MibType::Integer(7), "trim(1),trim_right(x)"), Ok(MibType::Integer(7)));
}

#[test]
fn chain_bad_argument_fails() {
    assert_eq!(run_chain(text("abc"), "trim_right(x)"), Err(ConvertError::BadArgument));
    assert_eq!(run_chain(text("abc"), "trim_right(-1)"), Err(ConvertError::BadArgument));
    assert_eq!(run_chain(text("abc"), "trim()"), Err(ConvertError::BadArgument));
    assert_eq!(run_chain(MibType::Integer(2), "multiply_by(two)"), Err(ConvertError::BadArgument));
    assert_eq!(run_chain(MibType::Integer(2), "multiply_by()"), Err(ConvertError::BadArgument));
    assert_eq!(run_chain(text("abc"), "multiply_by(two)"), Err(ConvertError::BadArgument));
}

fn unknown(segment: &str) -> Result<MibType, ConvertError> {
    Err(ConvertError::UnknownConverter(segment.to_string()))
}

#[test]
fn chain_names_need_their_brackets() {
    assert_eq!(run_chain(text("abcde"), "trimX2)"), unknown("trimX2)"));
    assert_eq!(run_chain(text("abcde"), "trimmed(2)"), unknown("trimmed(2)"));
    assert_eq!(run_chain(text("abcde"), "trim"), unknown("trim"));
    assert_eq!(run_chain(text("abcde"), "trim("), unknown("trim("));
    assert_eq!(run_chain(text("abcde"), "trim(2"), unknown("trim(2"));
    assert_eq!(run_chain(text("abcde"), "trim_right[2]"), unknown("trim_right[2]"));
    assert_eq!(run_chain(text("abcde"), "trim_right"), unknown("trim_right"));
    assert_eq!(run_chain(MibType::Integer(2), "multiply_by"), unknown("multiply_by"));
    assert_eq!(run_chain(MibType::Integer(2), "multiply_by2)"), unknown("multiply_by2)"));
    assert_eq!(run_chain(MibType::Integer(2), "cast_int()"), unknown("cast_int()"));
    assert_eq!(run_chain(MibType::Integer(2), "cast_floats"), unknown("cast_floats"));
    // A number is no text to trim, but the name is still looked at.
    assert_eq!(run_chain(MibType::Integer(2), "trimX2)"), unknown("trimX2)"));
}

#[test]
fn chain_unknown_converter_fails() {
    assert_eq!(
        run_chain(text("1"), "cast_int,frobnicate"),
        Err(ConvertError::UnknownConverter("frobnicate".to_string()))
    );
}

#[test]
fn chain_cast_int_reads_decimal_text() {
    assert_eq!(run_chain(text("42"), "cast_int"), Ok(MibType::Integer(42)));
    assert_eq!(run_chain(text("+42"), "cast_int"), Ok(MibType::Integer(42)));
    assert_eq!(run_chain(text("4294967295"), "cast_int"), Ok(MibType::Integer(4294967295)));
    assert_eq!(run_chain(text("4294967296"), "cast_int"), Err(ConvertError::NumberFormat));
    assert_eq!(run_chain(text("-1"), "cast_int"), Err(ConvertError::NumberFormat));
    assert_eq!(run_chain(text(""), "cast_int"), Err(ConvertError::NumberFormat));
    assert_eq!(run_chain(text("4 2"), "cast_int"), Err(ConvertError::NumberFormat));
}

#[test]
fn chain_cast_float_refuses_text_that_is_no_number() {
    assert_eq!(run_chain(text("warm"), "cast_float"), Err(ConvertError::NumberFormat));
}

#[test]
fn chain_cast_float_widens_integers() {
    assert_eq!(run_chain(MibType::Integer(3), "cast_float"), Ok(MibType::Float(3.0f32.to_bits())));
    assert_eq!(
        run_chain(MibType::Float(1.5f32.to_bits()), "cast_float"),
        Ok(MibType::Float(1.5f32.to_bits()))
    );
}

#[test]
fn chain_rounds_ties_away_from_zero() {
    assert_eq!(run_chain(MibType::Float(2.5f32.to_bits()), "cast_int"), Ok(MibType::Integer(3)));
    assert_eq!(run_chain(MibType::Float(2.4f32.to_bits()), "cast_int"), Ok(MibType::Integer(2)));
}

#[test]
fn chain_multiply_passes_text_through() {
    assert_eq!(run_chain(text("abc"), "multiply_by(2)"), Ok(text("abc")));
}

#[test]
fn chain_multiply_scales_integers() {
    assert_eq!(
        run_chain(MibType::Integer(21), "multiply_by(2)"),
        Ok(MibType::Float(42.0f32.to_bits()))
    );
}

#[test]
fn chain_segments_are_trimmed_and_empty_ones_dropped() {
    let segs = split_chain(" cast_float , ,multiply_by(1000),,cast_int ");
    assert_eq!(segs, vec!["cast_float".to_string(), "multiply_by(1000)".to_string(), "cast_int".to_string()]);
    assert_eq!(split_chain(""), Vec::<String>::new());
    assert_eq!(split_chain(" , "), Vec::<String>::new());
    assert_eq!(run_chain(text("5"), " , cast_int ,"), Ok(MibType::Integer(5)));
}

#[test]
fn chain_stops_where_the_answers_end() {
    let answers: Vec<Option<u32>> = Vec::new();
    let r = convert(text("53.2"), "cast_float,cast_int", &answers, 0);
    assert_eq!(r, Ok((Outcome::Float(FloatOp::Parse("53.2".to_string())), 0)));
    let answers = vec![Some(53.2f32.to_bits())];
    let r = convert(text("53.2"), "cast_float,cast_int", &answers, 0);
    assert_eq!(r, Ok((Outcome::Float(FloatOp::Round(53.2f32.to_bits())), 1)));
    let answers = vec![Some(53.2f32.to_bits()), Some(53)];
    let r = convert(text("53.2"), "cast_float,cast_int", &answers, 0);
    assert_eq!(r, Ok((Outcome::Value(MibType::Integer(53)), 2)));
}

#[test]
fn trim_drops_whitespace_at_both_ends() {
    assert_eq!(trim("  a b\t\n"), "a b");
    assert_eq!(trim("\u{3000}x\u{a0}"), "x");
    assert_eq!(trim("   "), "");
    assert_eq!(trim(""), "");
}

#[test]
fn paths_compare_by_number_not_by_text() {
    assert!(path_less(&vec![1, 9], &vec![1, 10]));
    assert!(!path_less(&vec![1, 10], &vec![1, 9]));
    assert!(path_less(&vec![1, 2], &vec![1, 2, 0]));
    assert!(!path_less(&vec![1, 2], &vec![1, 2]));
    assert!(path_less(&vec![], &vec![0]));
    assert!(path_equal(&vec![1, 2], &vec![1, 2]));
    assert!(!path_equal(&vec![1, 2], &vec![1, 2, 0]));
}

#[test]
fn tree_keeps_keys_in_order() {
    let mut t = MibTree::new();
    t.insert(vec![1, 10], WireValue::Integer(3));
    t.insert(vec![1, 2], WireValue::Integer(1));
    t.insert(vec![1, 2, 1], WireValue::Integer(2));
    t.insert(vec![1, 2], WireValue::Integer(11));
    assert_eq!(t.len(), 3);
    assert_eq!(t.key_at(0), &vec![1, 2]);
    assert_eq!(t.key_at(1), &vec![1, 2, 1]);
    assert_eq!(t.key_at(2), &vec![1, 10]);
    assert_eq!(t.value_at(0), &WireValue::Integer(11));
    assert_eq!(t.get(&vec![1, 2, 1]), Some(&WireValue::Integer(2)));
    assert_eq!(t.get(&vec![1, 3]), None);
    t.clear();
    assert_eq!(t.len(), 0);
    assert_eq!(t.get(&vec![1, 2]), None);
}

#[test]
fn tree_successor_follows_the_order_of_the_keys() {
    let mut t = MibTree::new();
    t.insert(vec![1, 10], WireValue::Integer(3));
    t.insert(vec![1, 2], WireValue::Integer(1));
    t.insert(vec![1, 2, 1], WireValue::Integer(2));
    let a = vec![1, 2];
    let b = vec![1, 2, 1];
    let c = vec![1, 10];
    assert_eq!(t.successor(&a, false), Some((&b, &WireValue::Integer(2))));
    assert_eq!(t.successor(&b, false), Some((&c, &WireValue::Integer(3))));
    assert_eq!(t.successor(&c, false), None);
    assert_eq!(t.successor(&a, true), Some((&a, &WireValue::Integer(1))));
    assert_eq!(t.successor(&vec![1, 3], true), Some((&c, &WireValue::Integer(3))));
    assert_eq!(t.successor(&vec![], false), Some((&a, &WireValue::Integer(1))));
    assert_eq!(t.successor(&vec![2], true), None);
}

#[test]
fn walk_visits_every_entry_once() {
    let root = vec![
        (1, group("a", vec![1], vec![(1, literal("a1", vec![1, 1], "x")), (2, literal("a2", vec![1, 2], "y"))])),
        (2, literal("b", vec![2], "z")),
    ];
    let mut it = RecursiveIterator::new(&root);
    let mut names: Vec<String> = Vec::new();
    while let Some(e) = it.next() {
        names.push(e.name.clone());
    }
    assert_eq!(names, vec!["b", "a", "a2", "a1"]);
    assert!(it.next().is_none());
}

#[test]
fn sibling_keys_must_differ() {
    let good = Metric {
        command: "smi".to_string(),
        name: "gpu".to_string(),
        relative_oid: vec![],
        mibs: vec![
            (1, group("a", vec![1], vec![(1, literal("a1", vec![1, 1], "x")), (2, literal("a2", vec![1, 2], "y"))])),
            (2, group("b", vec![2], vec![(1, literal("b1", vec![2, 1], "z"))])),
        ],
    };
    assert!(good.is_wf());
    let twice_at_top = Metric {
        command: "smi".to_string(),
        name: "gpu".to_string(),
        relative_oid: vec![],
        mibs: vec![(1, literal("a", vec![1], "x")), (2, literal("b", vec![2], "y")), (1, literal("c", vec![3], "z"))],
    };
    assert!(!twice_at_top.is_wf());
    let twice_below = Metric {
        command: "smi".to_string(),
        name: "gpu".to_string(),
        relative_oid: vec![],
        mibs: vec![(
            1,
            group(
                "a",
                vec![1],
                vec![(1, group("g", vec![1, 1], vec![(7, literal("p", vec![1, 1, 1], "x")), (7, literal("q", vec![1, 1, 2], "y"))]))],
            ),
        )],
    };
    assert!(!twice_below.is_wf());
    let empty = Metric { command: String::new(), name: String::new(), relative_oid: vec![], mibs: vec![] };
    assert!(empty.is_wf());
}

#[test]
fn decimal_numbers_are_read_digit_by_digit() {
    assert_eq!(parse_decimal("0", 0), Some(0));
    assert_eq!(parse_decimal("007", 7), Some(7));
    assert_eq!(parse_decimal("+18446744073709551615", u64::MAX), Some(u64::MAX));
    assert_eq!(parse_decimal("18446744073709551616", u64::MAX), None);
    assert_eq!(parse_decimal("99999999999999999999999", u64::MAX), None);
    assert_eq!(parse_decimal("256", 255), None);
    assert_eq!(parse_decimal("255", 255), Some(255));
    assert_eq!(parse_decimal("+", 255), None);
    assert_eq!(parse_decimal("", 255), None);
    assert_eq!(parse_decimal("++1", 255), None);
    assert_eq!(parse_decimal("1+", 255), None);
    assert_eq!(parse_decimal("1_0", 255), None);
    assert_eq!(parse_decimal(" 1", 255), None);
    assert_eq!(parse_decimal("٣", 255), None);
}

#[test]
fn handler_prefers_the_literal() {
    let mut e = leaf("x", vec![1], Some("$.a"), None);
    assert_eq!(detect_handler(&e), Handler::Json("$.a".to_string()));
    e.literal = Some("lit".to_string());
    assert_eq!(detect_handler(&e), Handler::Literal("lit".to_string()));
    assert_eq!(detect_handler(&leaf("y", vec![2], None, None)), Handler::Skip);
}

#[test]
fn scenario_single_leaf() {
    let mut m = card0();
    let key = vec![1, 3, 6, 1, 4, 1, 99999, 2, 1, 5, 1];
    let got = exact(&mut m, CARD0, &vec![range(key.clone(), false, vec![])]).unwrap();
    assert_eq!(got, vec![VarBind::new(Id::new(key), WireValue::Integer(42500))]);
}

#[test]
fn scenario_successor_from_the_entry_path() {
    let mut m = card0();
    rebuild(&mut m, CARD0).unwrap();
    let got = m.get_next(&vec![range(vec![1, 3, 6, 1, 4, 1, 99999, 2, 1, 5], true, vec![])]);
    let key = vec![1, 3, 6, 1, 4, 1, 99999, 2, 1, 5, 1];
    assert_eq!(got, vec![VarBind::new(Id::new(key), WireValue::Integer(42500))]);
}

#[test]
fn scenario_unknown_converter_fails_the_batch() {
    let mut m = metrics_of(vec![
        (1, literal("ok", vec![1], "fine")),
        (2, leaf("temp", vec![2, 1, 5], Some("$.card0.temp"), Some("frobnicate"))),
    ]);
    let r = exact(&mut m, CARD0, &vec![range(vec![1, 3, 6, 1, 4, 1, 99999, 1, 1], false, vec![])]);
    assert_eq!(
        r,
        Err(MibError::Convert(ConvertError::UnknownConverter("frobnicate".to_string())))
    );
    // No values are available after a failed rebuild.
    let next = m.get_next(&vec![range(vec![], true, vec![])]);
    assert_eq!(next[0].data, WireValue::EndOfMibView);
}

#[test]
fn exact_miss_gives_no_such_object_with_the_requested_id() {
    let mut m = card0();
    let asked = Id { inclusive: true, sub_ids: vec![1, 3, 6, 1, 4, 1, 99999, 2, 1, 6, 1] };
    let hit = Id::new(vec![1, 3, 6, 1, 4, 1, 99999, 2, 1, 5, 1]);
    let ranges = vec![
        SearchRange { start: asked.clone(), end: Id::new(vec![]) },
        SearchRange { start: hit.clone(), end: Id::new(vec![]) },
    ];
    let got = exact(&mut m, CARD0, &ranges).unwrap();
    assert_eq!(
        got,
        vec![VarBind::new(asked, WireValue::NoSuchObject), VarBind::new(hit, WireValue::Integer(42500))]
    );
}

#[test]
fn successor_past_the_last_key_gives_end_of_view() {
    let mut m = card0();
    rebuild(&mut m, CARD0).unwrap();
    let max = vec![1, 3, 6, 1, 4, 1, 99999, 2, 1, 5, 1];
    // After the greatest key there is nothing.
    let got = m.get_next(&vec![range(max.clone(), false, vec![])]);
    assert_eq!(got, vec![VarBind::new(Id::new(max.clone()), WireValue::EndOfMibView)]);
    // At the greatest key, with an end that does not lie after it.
    let asked = range(max.clone(), true, max.clone());
    let got = m.get_next(&vec![asked.clone()]);
    assert_eq!(got, vec![VarBind::new(asked.start, WireValue::EndOfMibView)]);
    // At the greatest key, with no end, the key itself is found.
    let got = m.get_next(&vec![range(max.clone(), true, vec![])]);
    assert_eq!(got, vec![VarBind::new(Id::new(max), WireValue::Integer(42500))]);
}

#[test]
fn successor_respects_the_end_of_the_range() {
    let mut m = metrics_of(vec![
        (1, literal("a", vec![1], "one")),
        (2, literal("b", vec![2], "two")),
        (3, literal("c", vec![10], "ten")),
    ]);
    rebuild(&mut m, "{}").unwrap();
    let b = [base(), vec![2, 1]].concat();
    let c = [base(), vec![10, 1]].concat();
    let from_a = [base(), vec![1, 1]].concat();
    let got = m.get_next(&vec![
        range(from_a.clone(), false, vec![]),
        range(b.clone(), false, c.clone()),
        range(b.clone(), false, [base(), vec![11]].concat()),
        range(base(), false, [base(), vec![1]].concat()),
    ]);
    assert_eq!(got.len(), 4);
    assert_eq!(got[0], VarBind::new(Id::new(b.clone()), WireValue::OctetString("two".to_string())));
    assert_eq!(got[1], VarBind::new(Id::new(b.clone()), WireValue::EndOfMibView));
    assert_eq!(got[2], VarBind::new(Id::new(c), WireValue::OctetString("ten".to_string())));
    assert_eq!(got[3], VarBind::new(Id::new(base()), WireValue::EndOfMibView));
}

#[test]
fn successor_walks_the_tree_in_key_order() {
    let mut m = metrics_of(vec![
        (7, literal("c", vec![10], "ten")),
        (3, group("g", vec![2], vec![(1, literal("b1", vec![2, 0], "twenty"))])),
        (9, literal("a", vec![9], "nine")),
    ]);
    rebuild(&mut m, "{}").unwrap();
    let mut seen: Vec<Vec<u32>> = Vec::new();
    let mut at = Id::new(vec![]);
    loop {
        let got = m.get_next(&vec![SearchRange { start: at.clone(), end: Id::new(vec![]) }]);
        if got[0].data == WireValue::EndOfMibView {
            assert_eq!(got[0].name, at);
            break;
        }
        seen.push(got[0].name.sub_ids.clone());
        at = got[0].name.clone();
    }
    let want: Vec<Vec<u32>> = vec![
        [base(), vec![2, 0, 1]].concat(),
        [base(), vec![9, 1]].concat(),
        [base(), vec![10, 1]].concat(),
    ];
    assert_eq!(seen, want);
}

#[test]
fn rebuild_twice_gives_the_same_tree() {
    let mut m = card0();
    let all = vec![range(vec![], true, vec![]), range(vec![1, 3, 6, 1, 4, 1, 99999, 2, 1, 5, 1], false, vec![])];
    rebuild(&mut m, CARD0).unwrap();
    let first = m.get_next(&all);
    rebuild(&mut m, CARD0).unwrap();
    let second = m.get_next(&all);
    assert_eq!(first, second);
    assert_eq!(first[0].data, WireValue::Integer(42500));
    assert_eq!(first[1].data, WireValue::EndOfMibView);
}

#[test]
fn rebuild_forgets_what_the_source_no_longer_gives() {
    let mut m = card0();
    rebuild(&mut m, CARD0).unwrap();
    assert_eq!(rebuild(&mut m, "{\"card1\":{}}"), Err(MibError::NoData("$.card0.temp".to_string())));
    let got = m.get_next(&vec![range(vec![], true, vec![])]);
    assert_eq!(got[0].data, WireValue::EndOfMibView);
}

#[test]
fn rebuild_refuses_output_that_is_not_json() {
    let mut m = card0();
    assert_eq!(rebuild(&mut m, "temp: 42.5"), Err(MibError::Json));
    assert_eq!(rebuild(&mut m, ""), Err(MibError::Json));
}

#[test]
fn rebuild_refuses_a_match_that_is_no_string() {
    let mut m = card0();
    assert_eq!(
        rebuild(&mut m, "{\"card0\":{\"temp\":42.5}}"),
        Err(MibError::NotText("$.card0.temp".to_string()))
    );
    assert_eq!(
        rebuild(&mut m, "{\"card0\":{\"temp\":[\"42.5\"]}}"),
        Err(MibError::NotText("$.card0.temp".to_string()))
    );
}

#[test]
fn rebuild_refuses_a_path_that_cannot_be_read() {
    let mut m = metrics_of(vec![(1, leaf("bad", vec![1], Some("$.card0["), None))]);
    assert_eq!(rebuild(&mut m, CARD0), Err(MibError::Path("$.card0[".to_string())));
}

#[test]
fn resolution_takes_the_first_match() {
    let e = leaf("any", vec![4], Some("$.temp"), None);
    let found = vec![Some("41".to_string()), Some("43".to_string()), None];
    let r = resolve_matches(&e, "$.temp".to_string(), &found, &Vec::new(), 0);
    assert_eq!(r, Resolution::Store(WireValue::OctetString("41".to_string()), 0));
    let found = vec![None, Some("43".to_string())];
    let r = resolve_matches(&e, "$.temp".to_string(), &found, &Vec::new(), 0);
    assert_eq!(r, Resolution::Fail(MibError::NotText("$.temp".to_string())));
    let r = resolve_matches(&e, "$.temp".to_string(), &Vec::new(), &Vec::new(), 0);
    assert_eq!(r, Resolution::Fail(MibError::NoData("$.temp".to_string())));
}

#[test]
fn plain_paths_are_made_of_keys_indices_and_wildcards() {
    for path in [
        "$",
        "$.card0.temp",
        "$.a-b.c_d.0",
        "$.card0.Temperature/°C",
        "$..temp",
        "$.*",
        "$..*",
        "$[*]",
        "$[0]",
        "$[-1]",
        "$.a[12].b",
        "$['a b']",
        "$[\"Temperature (Sensor edge) (C)\"]",
        "$['']",
        "$['it\"s']",
        "$.card0['a.b'][0]..x.*",
    ] {
        assert!(is_plain_path(path), "{}", path);
    }
    for path in [
        "",
        "card0",
        "$card0",
        "$.",
        "$...a",
        "$.a.",
        "$.a b",
        "$.a'b",
        "$.a$b",
        "$.a\\b",
        "$.a\u{a0}b",
        "$[",
        "$[]",
        "$[0",
        "$[ 0 ]",
        "$[-]",
        "$[0,1]",
        "$[0:1]",
        "$[::0]",
        "$[:2]",
        "$.a[0:1:0]",
        "$['a','b']",
        "$['a\\'b']",
        "$['a]",
        "$['a'",
        "$[a]",
        "$[?(@.temp)]",
        "$.a[?(@.b == 1)]",
        "$..[0]",
        "$.@",
    ] {
        assert!(!is_plain_path(path), "{}", path);
    }
    assert!(!is_plain_path(&format!("${}", ".a".repeat(512))));
    assert!(is_plain_path(&format!("${}", ".a".repeat(511))));
}

const CARDS: &str = "{\"cards\":[{\"temp\":\"41\",\"Fan speed (%)\":\"30\"},{\"temp\":\"43\"}],\"a b\":\"spaced\"}";

fn first_value(path: &str, stdout: &str) -> Result<WireValue, MibError> {
    let mut m = metrics_of(vec![(1, leaf("x", vec![4], Some(path), None))]);
    rebuild(&mut m, stdout)?;
    let got = m.get_next(&vec![range(base(), false, vec![])]);
    assert_eq!(got[0].name, Id::new([base(), vec![4, 1]].concat()));
    Ok(got[0].data.clone())
}

fn octets(s: &str) -> Result<WireValue, MibError> {
    Ok(WireValue::OctetString(s.to_string()))
}

#[test]
fn rebuild_reads_keys_in_brackets() {
    assert_eq!(first_value("$['a b']", CARDS), octets("spaced"));
    assert_eq!(first_value("$[\"a b\"]", CARDS), octets("spaced"));
    assert_eq!(first_value("$.cards[0]['Fan speed (%)']", CARDS), octets("30"));
    assert_eq!(first_value("$['missing']", CARDS), Err(MibError::NoData("$['missing']".to_string())));
}

#[test]
fn rebuild_reads_elements_by_index() {
    assert_eq!(first_value("$.cards[0].temp", CARDS), octets("41"));
    assert_eq!(first_value("$.cards[1].temp", CARDS), octets("43"));
    assert_eq!(first_value("$.cards[-1].temp", CARDS), octets("43"));
    assert_eq!(first_value("$.cards[2].temp", CARDS), Err(MibError::NoData("$.cards[2].temp".to_string())));
    assert_eq!(first_value("$.cards[0]", CARDS), Err(MibError::NotText("$.cards[0]".to_string())));
    assert_eq!(
        first_value("$.cards[99999999999999999999999].temp", CARDS),
        Err(MibError::Path("$.cards[99999999999999999999999].temp".to_string()))
    );
}

#[test]
fn rebuild_takes_the_first_match() {
    assert_eq!(first_value("$..temp", CARDS), octets("41"));
    assert_eq!(first_value("$.cards[*].temp", CARDS), octets("41"));
    assert_eq!(first_value("$.cards.*.temp", CARDS), octets("41"));
    assert_eq!(first_value("$.*", CARDS), Err(MibError::NotText("$.*".to_string())));
    assert_eq!(first_value("$..*", "{\"a\":\"x\"}"), octets("x"));
    assert_eq!(first_value("$[*]", "[\"p\",\"q\"]"), octets("p"));
}

#[test]
fn rebuild_refuses_slices_lists_and_filters() {
    for path in ["$[::0]", "$.a[0:1:0]", "$.cards[0:1]", "$.cards[0,1]", "$['a','b']", "$.cards[?(@.temp)]", "card0.temp"] {
        let mut m = metrics_of(vec![(1, leaf("bad", vec![1], Some(path), None))]);
        assert_eq!(rebuild(&mut m, CARDS), Err(MibError::Path(path.to_string())));
        assert_eq!(rebuild(&mut m, "[]"), Err(MibError::Path(path.to_string())));
        assert_eq!(rebuild(&mut m, "{\"a\":[1]}"), Err(MibError::Path(path.to_string())));
    }
}

#[test]
fn rebuild_reads_the_whole_document_with_the_root_path() {
    let mut m = metrics_of(vec![(1, leaf("all", vec![1], Some("$"), None))]);
    rebuild(&mut m, "\"up\"").unwrap();
    let got = m.get_next(&vec![range(base(), false, vec![])]);
    assert_eq!(got[0].data, WireValue::OctetString("up".to_string()));
    assert_eq!(rebuild(&mut m, "{}"), Err(MibError::NotText("$".to_string())));
}

#[test]
fn rebuild_refuses_a_float_left_at_the_end() {
    let mut m = metrics_of(vec![(1, leaf("t", vec![1], Some("$.card0.temp"), Some("cast_float")))]);
    assert_eq!(rebuild(&mut m, CARD0), Err(MibError::NotRepresentable));
}

#[test]
fn rebuild_stores_large_integers_as_signed() {
    let mut m = metrics_of(vec![(1, leaf("t", vec![1], Some("$.n"), Some("cast_int")))]);
    rebuild(&mut m, "{\"n\":\"4294967295\"}").unwrap();
    let got = m.get_next(&vec![range(base(), false, vec![])]);
    assert_eq!(got[0].data, WireValue::Integer(-1));
}

#[test]
fn integers_are_narrowed_bit_for_bit() {
    assert_eq!(narrow_integer(0), 0);
    assert_eq!(narrow_integer(53200), 53200);
    assert_eq!(narrow_integer(2147483647), 2147483647);
    assert_eq!(narrow_integer(2147483648), -2147483648);
    assert_eq!(narrow_integer(4294967295), -1);
}

#[test]
fn rebuild_visits_children_of_entries_without_a_value() {
    let mut m = metrics_of(vec![(
        1,
        group(
            "cards",
            vec![2],
            vec![
                (1, leaf("temp", vec![2, 1, 5], Some("$.card0.temp"), Some("trim_right(2)"))),
                (2, literal("vendor", vec![2, 1, 1], "AMD")),
            ],
        ),
    )]);
    let ranges = vec![
        range([base(), vec![2, 1, 1, 1]].concat(), false, vec![]),
        range([base(), vec![2, 1, 5, 1]].concat(), false, vec![]),
        range([base(), vec![2, 1]].concat(), false, vec![]),
    ];
    let got = exact(&mut m, CARD0, &ranges).unwrap();
    assert_eq!(got[0].data, WireValue::OctetString("AMD".to_string()));
    assert_eq!(got[1].data, WireValue::OctetString("42".to_string()));
    assert_eq!(got[2].data, WireValue::NoSuchObject);
    assert_eq!(m.command(), "rocm-smi --json");
}
