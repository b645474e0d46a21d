use dispa::compiled;
use dispa::errors::{CompileErrorType, GenericError};
use dispa::file_reader::{get_file_name, parse_source, to_tracked};
use dispa::objects::{
    Decimal, Entity, Number, NumberSet, NumberType, Position, Regexes, Rotation, Scale, TrackedChar,
    Translation,
};
use dispa::statements::{get_buffer_string, FileInfo, Program, Statement};

fn d(units: i64) -> Decimal {
    Decimal { units }
}

fn entity(name: &str) -> Entity {
    Entity::new(name.to_string(), &Regexes::new().unwrap()).unwrap()
}

fn parse(source: &str) -> Result<Program, GenericError> {
    parse_source(source, "anim/test.dspa")
}

fn error_text(source: &str) -> String {
    match parse(source) {
        Err(GenericError::Collection(m)) => m,
        Err(_) => panic!("unexpected error kind"),
        Ok(p) => panic!("parsed: {:?}", p),
    }
}

fn compile(source: &str) -> compiled::CompiledFile {
    let program = parse(source).unwrap();
    compiled::program(program, "test", "anim/test.dspa", &Vec::new())
}

#[test]
fn line_test() {
    let test_str = "\
        abcde#abcde\n\
        abcde\"abc_abc\"abcde\n\
        abcde\"abc#abc\"abcde\n\
        abcde\"abc#abc\"abc#de\n\
        ";
    let lines = to_tracked(test_str)
        .split(|char| char.character == '\n')
        .map(<[TrackedChar]>::to_vec)
        .collect::<Vec<_>>();

    assert_eq!(get_buffer_string(&lines[0]).0, "abcde".to_string());
    assert_eq!(
        get_buffer_string(&lines[1]).0,
        "abcde\"abc_abc\"abcde".to_string()
    );
    assert_eq!(
        get_buffer_string(&lines[2]).0,
        "abcde\"abc#abc\"abcde".to_string()
    );
    assert_eq!(
        get_buffer_string(&lines[3]).0,
        "abcde\"abc#abc\"abc".to_string()
    );
}

#[test]
fn statement_test() {
    let test_program = "\
        move test 20 0 1 0;\n\
        turn test 20 y 90;\n\
        size test 20 2 2 2;\n\
        wait 40;\n\
        spawn test block_display test2;\n\
        ";
    let chars = to_tracked(test_program);
    let full_program = Program::parse_from_file(
        &FileInfo {
            path: String::new(),
            eof: TrackedChar::new(6, test_program.len(), '\n'),
        },
        &chars,
    )
    .unwrap();
    let regexes = Regexes::new().unwrap();

    assert_eq!(full_program.statements.len(), 5);
    assert_eq!(
        full_program.statements[0],
        Statement::Translate(
            Entity::new("test".to_string(), &regexes).unwrap(),
            Translation::new((d(0), d(1_000_000), d(0))),
            NumberSet { delay: 0, duration: 20 }
        )
    );
    assert_eq!(
        full_program.statements[1],
        Statement::Rotate(
            Entity::new("test".to_string(), &regexes).unwrap(),
            Rotation::new([d(0), d(1_000_000), d(0)], d(90_000_000)),
            NumberSet { delay: 0, duration: 20 }
        )
    );
    assert_eq!(
        full_program.statements[2],
        Statement::Scale(
            Entity::new("test".to_string(), &regexes).unwrap(),
            Scale::new((d(2_000_000), d(2_000_000), d(2_000_000))),
            NumberSet { delay: 0, duration: 20 }
        )
    );
    assert_eq!(full_program.statements[3], Statement::Wait(40));
    assert_eq!(
        full_program.statements[4],
        Statement::Spawn {
            source: Entity::new("test".to_string(), &regexes).unwrap(),
            entity_type: "block_display".to_string(),
            new: Entity::new("test2".to_string(), &regexes).unwrap(),
            offset: Translation::new((d(0), d(0), d(0))),
            delay: 0,
        }
    );
}

#[test]
fn number_round_trip() {
    for (value, kind) in [(10, NumberType::Delay), (0, NumberType::Duration), (u32::MAX, NumberType::Delay)] {
        let n = Number { value, number_type: kind };
        let token = n.to_token();
        assert_eq!(Number::parse(&token), Ok(n));
    }
    assert_eq!(Number { value: 10, number_type: NumberType::Delay }.to_token(), "@10");
    assert_eq!(Number { value: 7, number_type: NumberType::Duration }.to_token(), "%7");
    assert!(Number::parse("@4294967296").is_err());
    assert!(Number::parse("@").is_err());
    assert!(Number::parse("#5").is_err());
    assert!(Number::parse("@-1").is_err());
}

#[test]
fn decimal_notation() {
    assert_eq!(Decimal::parse("-0.250"), Some(d(-250_000)));
    assert_eq!(Decimal::parse("-0.250").unwrap().to_text(), "-0.25");
    assert_eq!(Decimal::parse("1.").unwrap().to_text(), "1");
    assert_eq!(Decimal::parse("+3").unwrap().to_text(), "3");
    assert_eq!(Decimal::parse(".5").unwrap().to_text(), "0.5");
    assert_eq!(d(1_000_001).to_text(), "1.000001");
    assert_eq!(Decimal::parse("1e3"), None);
    assert_eq!(Decimal::parse("0.1234567"), None);
    assert_eq!(Decimal::parse("."), None);
    assert_eq!(Decimal::parse(""), None);
    assert_eq!(Decimal::parse("1000000000000"), Some(d(1_000_000_000_000_000_000)));
    assert_eq!(Decimal::parse("1000000000000.5"), None);
}

#[test]
fn nested_blocks_inherit_innermost_timing() {
    let program = parse(
        "@5 %10 { @7 { move e 1 0 0; } move e 2 0 0; } move e 3 0 0;",
    )
    .unwrap();
    let timings: Vec<NumberSet> = program
        .statements
        .iter()
        .map(|s| match s {
            Statement::Translate(_, _, n) => *n,
            other => panic!("not a translation: {:?}", other),
        })
        .collect();
    assert_eq!(
        timings,
        vec![
            NumberSet { delay: 7, duration: 10 },
            NumberSet { delay: 5, duration: 10 },
            NumberSet { delay: 0, duration: 0 },
        ]
    );
}

#[test]
fn relative_zero_after_absolute() {
    let program = parse("translate e 5 1 2 3; translate e 5 ~0 ~0 ~0; translate e 5 ~1 ~ ~-0.5;").unwrap();
    let positions: Vec<Translation> = program
        .statements
        .iter()
        .map(|s| match s {
            Statement::Translate(_, t, _) => *t,
            other => panic!("not a translation: {:?}", other),
        })
        .collect();
    assert_eq!(positions[0], positions[1]);
    assert_eq!(positions[0], Translation::new((d(1_000_000), d(2_000_000), d(3_000_000))));
    assert_eq!(positions[2], Translation::new((d(2_000_000), d(2_000_000), d(2_500_000))));
}

#[test]
fn relative_scale_starts_from_one() {
    let program = parse("scale e 5 ~1 ~ ~-0.5;").unwrap();
    match &program.statements[0] {
        Statement::Scale(_, s, _) => {
            assert_eq!((s.x, s.y, s.z), (d(2_000_000), d(1_000_000), d(500_000)));
        }
        other => panic!("not a scale: {:?}", other),
    }
}

#[test]
fn duplicate_number_type_fails() {
    for source in ["@1 @2 move e 1 2 3;", "%1 %2 end;", "@3 @4 wait 1;", "%1 %2 {"] {
        let m = error_text(source);
        assert!(m.contains("has the same type as the number before it"), "{}", m);
    }
}

#[test]
fn unmatched_close_fails() {
    let m = error_text("wait 1; }");
    assert!(m.contains("Brackets are unbalanced."), "{}", m);
    let m = error_text("}");
    assert!(m.starts_with("0: Compilation Error"), "{}", m);
    let m = error_text("{ wait 1;");
    assert!(m.contains("Brackets are unbalanced."), "{}", m);
}

#[test]
fn scenario_object_move_end() {
    let file = compile("object test; @10 %20 move e 1 0 0; @10 end;");
    assert_eq!(file.object_name, "test");
    assert_eq!(file.animation_name, "test");
    assert_eq!(file.path, "anim/test.dspa");
    assert_eq!(
        file.contents,
        "# File generated using DiSPA\n\
         execute as @e[tag=test,tag=e] if score $test-test timer matches 10 run data merge entity @s {start_interpolation:0,interpolation_duration:20,transformation:{translation: [1f,0f,0f]}}\n\
         execute if score $test-test timer matches 10.. run scoreboard players set $test-test flags 0\n\
         execute if score $test-test timer matches 10.. run scoreboard players set $test-test timer -1\n\
         scoreboard players add $test-test timer 1"
    );
}

#[test]
fn quoted_separator_stays_in_statement() {
    let program = parse("text e 'a;b {c}';").unwrap();
    assert_eq!(program.statements.len(), 1);
    assert_eq!(program.statements[0], Statement::Text(entity("e"), "'a;b {c}'".to_string(), 0));
    let program = parse("text e \"x;y\" # a comment; }\n;").unwrap();
    assert_eq!(program.statements, vec![Statement::Text(entity("e"), "\"x;y\"".to_string(), 0)]);
}

#[test]
fn spawn_offset_defaults_to_zero() {
    let file = compile("object o:a; spawn e block_display e2;");
    assert!(file.contents.contains(
        "execute as @e[tag=o,tag=e] at @s if score $o-a timer matches 0 run summon block_display ~0 ~0 ~0 {Tags:[\"o\",\"e2\"]}"
    ), "{}", file.contents);
    let file = compile("spawn e text_display e2 1.5 0 -2;");
    assert!(file.contents.contains("summon text_display ~1.5 ~0 ~-2 {Tags:[\"test\",\"e2\"]}"), "{}", file.contents);
}

#[test]
fn error_aggregation_reports_each_failure() {
    let m = error_text("wait 1; wait 2; wait x;");
    assert!(m.starts_with("2: Compilation Error"), "{}", m);
    assert_eq!(m.matches("Compilation Error").count(), 1);
    let m = error_text("wait 1; wait x; wait y;");
    assert!(m.starts_with("1: Compilation Error"), "{}", m);
    assert!(m.contains("\n2: Compilation Error"), "{}", m);
    let files = vec![parse("wait 1; wait 2; wait x;"), parse("wait 1;")];
    assert!(files[1].is_ok());
    match dispa::collect_errors(files) {
        Err((GenericError::Collection(m), good)) => {
            assert!(m.starts_with("0: "), "{}", m);
            assert_eq!(m.matches("Compilation Error").count(), 1);
            assert_eq!(good.len(), 1);
            assert_eq!(good[0].statements, vec![Statement::Wait(1)]);
        }
        _ => panic!("batch should fail"),
    }
}

#[test]
fn collect_errors_keeps_values() {
    let ok: Vec<Result<u8, GenericError>> = vec![Ok(1), Ok(2), Ok(3)];
    assert_eq!(dispa::collect_errors(ok).unwrap(), vec![1, 2, 3]);
}

#[test]
fn error_message_and_location() {
    let m = error_text("wait 1;\n  foo e;");
    assert_eq!(
        m,
        "1: Compilation Error: \n  File: anim/test.dspa\n  Line: 1, Column: 8\n  Error: Keyword 'foo' is invalid.\n"
    );
    assert_eq!(CompileErrorType::InvalidKeyword("foo".to_string()).message(), "Keyword 'foo' is invalid.");
    assert_eq!(
        CompileErrorType::IncorrectArgumentCount("wait".to_string(), 1, 0).message(),
        "Incorrect number of arguments in 'wait': Expected '1', found '0'."
    );
}

#[test]
fn each_error_kind() {
    let cases = [
        ("foo e;", "Keyword 'foo' is invalid."),
        ("object a!b;", "Statement 'a!b' contains invalid characters."),
        ("wait x;", "Number 'x' is not a valid integer: invalid digit found in string"),
        ("wait 4294967296;", "Number '4294967296' is not a valid integer: number too large to fit in target type"),
        ("@ wait 1;", "Number '@' is not a valid integer: cannot parse integer from empty string"),
        ("turn e 1 x abc;", "Number 'abc' is not a valid float: expected an optional sign"),
        ("wait;", "Incorrect number of arguments in 'wait': Expected '1', found '0'."),
        ("move e 1 a 0 0;", "Coordinate 'a' is invalid: expected an optional sign, digits and at most six decimal places"),
        ("move e 1 0.1234567 0 0;", "Coordinate '0.1234567' is invalid: expected"),
        ("turn e 1 q 90;", "'q' is not a valid axis."),
        ("turn e 1 [1,0] 90;", "'[1,0]' is not a valid axis."),
        ("spawn e foo e2;", "Entity type 'foo' is invalid."),
        ("move e! 1 0 0 0;", "Entity name 'e!' contains invalid characters."),
        ("block e stone[a];", "State 'a' is invalid."),
        ("block e stone[a=1;", "State 'a=1' is invalid."),
        ("object a:;", "Argument 'a:' contains an object name, but no animation name."),
        ("@1 @2 end;", "Number '@2' has the same type as the number before it."),
        ("%5 end;", "Number '%5' must be a delay."),
        ("@5;", "Statement '@5' has no keyword."),
        ("}", "Brackets are unbalanced."),
        ("wait 1", "Statement 'wait 1' is not terminated by ';'."),
        ("wait 1 }", "Brackets are unbalanced."),
        ("{ wait 1 }", "Statement 'wait 1' ends with the wrong separator."),
        ("move e {", "Statement 'move e' ends with the wrong separator."),
        ("@x wait 1;", "Number '@x' is not a valid integer: invalid digit found in string"),
    ];
    for (source, message) in cases {
        let m = error_text(source);
        assert!(m.contains(message), "{} gave {}", source, m);
    }
}

#[test]
fn keyword_aliases_and_case() {
    let program = parse("MOVE e 1 0 0 0; Tp e 1 2 3; delay 3; anim o:a;").unwrap();
    assert!(matches!(program.statements[0], Statement::Translate(..)));
    assert_eq!(
        program.statements[1],
        Statement::Teleport(entity("e"), Translation::new((d(1_000_000), d(2_000_000), d(3_000_000))), 0)
    );
    assert_eq!(program.statements[2], Statement::Wait(3));
    assert_eq!(program.statements[3], Statement::ObjectName("o".to_string(), "a".to_string()));
}

#[test]
fn generated_lines_for_each_statement() {
    let file = compile(
        "object o:a; wait 5; @2 item e diamond_sword 2; block e stone[a=1, b=2]; block e dirt; text e hello  world; @1 tp e 0 1 0; /say hi; //say now; @3 %4 size e 2 2 2; end;",
    );
    let lines: Vec<&str> = file.contents.split('\n').collect();
    assert_eq!(lines[0], "# File generated using DiSPA");
    assert_eq!(lines[1], "execute as @e[tag=o,tag=e] if score $o-a timer matches 7 run item replace entity @s contents with diamond_sword 2");
    assert_eq!(lines[2], "execute as @e[tag=o,tag=e] if score $o-a timer matches 5 run data merge entity @s {block_state:{Name:\"stone\",Properties:{a:\"1\",b:\"2\"}}}");
    assert_eq!(lines[3], "execute as @e[tag=o,tag=e] if score $o-a timer matches 5 run data merge entity @s {block_state:{Name:\"dirt\"}}");
    assert_eq!(lines[4], "execute as @e[tag=o,tag=e] if score $o-a timer matches 5 run data merge entity @s {text:'hello  world'}");
    assert_eq!(lines[5], "execute as @e[tag=o,tag=e] if score $o-a timer matches 6 run tp @s ~0 ~1 ~0");
    assert_eq!(lines[6], "execute if score $o-a timer matches 5 run say hi");
    assert_eq!(lines[7], "say now");
    assert_eq!(lines[8], "execute as @e[tag=o,tag=e] if score $o-a timer matches 8 run data merge entity @s {start_interpolation:0,interpolation_duration:4,transformation:{scale: [2f,2f,2f]}}");
    assert_eq!(lines[9], "execute if score $o-a timer matches 5.. run scoreboard players set $o-a flags 0");
    assert_eq!(lines[10], "execute if score $o-a timer matches 5.. run scoreboard players set $o-a timer -1");
    assert_eq!(lines[11], "scoreboard players add $o-a timer 1");
    assert_eq!(lines.len(), 12);
}

#[test]
fn rotation_payloads_are_used_in_order() {
    let program = parse("turn e 2 x 90; turn e 3 [0,1,0] 45;").unwrap();
    let rotations = vec!["left_rotation: [a]".to_string(), "left_rotation: [b]".to_string()];
    let file = compiled::program(program, "r", "r.dspa", &rotations);
    assert!(file.contents.contains("interpolation_duration:2,transformation:{left_rotation: [a]}}"));
    assert!(file.contents.contains("interpolation_duration:3,transformation:{left_rotation: [b]}}"));
}

#[test]
fn file_names() {
    assert_eq!(get_file_name("./src/walk.dspa").ok(), Some("walk".to_string()));
    assert_eq!(get_file_name("a/b.c.dspa").ok(), Some("b.c".to_string()));
    assert_eq!(get_file_name(".hidden").ok(), Some(".hidden".to_string()));
    assert_eq!(get_file_name("dir/name/").ok(), Some("name".to_string()));
    assert!(get_file_name("a/..").is_err());
    assert!(get_file_name("").is_err());
    assert!(get_file_name("/").is_err());
}

#[test]
fn file_name_names_the_output() {
    let program = parse("wait 1;").unwrap();
    let name = get_file_name("anim/walk.dspa").unwrap();
    let file = compiled::program(program, &name, "anim/walk.dspa", &Vec::new());
    assert_eq!(file.object_name, "walk");
    assert_eq!(file.contents, "# File generated using DiSPA\nscoreboard players add $walk-walk timer 1");
}

#[test]
fn tick_line() {
    assert_eq!(
        compiled::tick_function_line("o", "a", "de", "objects/walk"),
        "execute if score $o-a flags matches 1.. run function de:objects/walk"
    );
    assert_eq!(compiled::disclaimer(), "# File generated using DiSPA");
}

#[test]
fn positions_count_lines_and_columns() {
    let chars = to_tracked("ab\ncd");
    assert_eq!(chars.len(), 5);
    assert_eq!((chars[0].position.line, chars[0].position.column), (1, 1));
    assert_eq!((chars[2].position.line, chars[2].position.column), (1, 3));
    assert_eq!((chars[3].position.line, chars[3].position.column), (2, 1));
    assert_eq!(chars[4].character, 'd');
}

#[test]
fn carriage_returns_are_dropped() {
    let program = parse("wait 1;\r\nwait 2;\r\n").unwrap();
    assert_eq!(program.statements, vec![Statement::Wait(1), Statement::Wait(2)]);
}

#[test]
fn entity_names_are_validated() {
    let regexes = Regexes::new().unwrap();
    assert!(Entity::new("ok_name-1".to_string(), &regexes).is_ok());
    assert!(Entity::new("bad name".to_string(), &regexes).is_err());
    assert!(Entity::new("é".to_string(), &regexes).is_err());
    assert_eq!(Entity::new("x".to_string(), &regexes).unwrap().name(), "x");
}

#[test]
fn position_offsets_and_text() {
    let p = Position::new(3, 5);
    assert_eq!(p.add(2), Position::new(3, 7));
    assert_eq!(p.sub(4), Position::new(3, 1));
    assert_eq!(p.to_text(), "3:5");
    assert_eq!(TrackedChar::new(2, 9, 'x').to_text(), "'x': 2:9");
}

#[test]
fn keywords_fold_unicode_case() {
    let program = parse("BLOC\u{212A} e stone; SPAWN e item_display e2;").unwrap();
    assert_eq!(
        program.statements[0],
        Statement::Block(entity("e"), dispa::objects::BlockState::new("stone".to_string(), Vec::new()), 0)
    );
    assert!(matches!(program.statements[1], Statement::Spawn { .. }));
    assert!(error_text("blocks e stone;").contains("Keyword 'blocks' is invalid."));
}

#[test]
fn relative_rotation_angle() {
    let program = parse("turn e 1 y 90; turn e 1 y ~-30; turn f 1 x ~;").unwrap();
    let angles: Vec<Decimal> = program
        .statements
        .iter()
        .map(|s| match s {
            Statement::Rotate(_, r, _) => r.angle,
            other => panic!("not a rotation: {:?}", other),
        })
        .collect();
    assert_eq!(angles, vec![d(90_000_000), d(60_000_000), d(0)]);
}

#[test]
fn payloads_keep_their_spacing() {
    let program = parse("text e  'two  spaces;'  ; @3 //say  a   b;").unwrap();
    assert_eq!(program.statements[0], Statement::Text(entity("e"), "'two  spaces;'".to_string(), 0));
    assert_eq!(
        program.statements[1],
        Statement::Raw { command: "say  a   b".to_string(), delayed: false, delay: 3 }
    );
}

#[test]
fn reset_uses_the_final_names() {
    let file = compile("@4 end; object o:a;");
    assert_eq!(file.object_name, "o");
    assert_eq!(file.animation_name, "a");
    assert_eq!(
        file.contents,
        "# File generated using DiSPA\n\
         execute if score $o-a timer matches 4.. run scoreboard players set $o-a flags 0\n\
         execute if score $o-a timer matches 4.. run scoreboard players set $o-a timer -1\n\
         scoreboard players add $o-a timer 1"
    );
}

#[test]
fn unmatched_close_after_text() {
    let m = error_text("wait 1 }");
    assert!(m.contains("Brackets are unbalanced."), "{}", m);
    assert!(!m.contains("wrong separator"), "{}", m);
}
