use luarus::compile::compile;
use luarus::compile::literal::{FloatReading, FloatValue};
use luarus::compile::literal_bodies;
use luarus::generator::{program, program_with, shrink, Config};

fn read_float(body: &str) -> Option<FloatValue> {
    let v: f64 = match body {
        "inf" | "+inf" => f64::INFINITY,
        "-inf" => f64::NEG_INFINITY,
        "nan" => f64::NAN,
        _ => body.parse().ok()?,
    };
    Some(FloatValue { bits64: v.to_bits(), bits32: (v as f32).to_bits(), shown: format!("{v}") })
}

fn compiles(src: &str) -> bool {
    let floats: Vec<FloatReading> = literal_bodies(src)
        .into_iter()
        .map(|body| FloatReading { value: read_float(&body), body })
        .collect();
    compile(src, "t", &floats).is_ok()
}

#[test]
fn generation_is_reproducible() {
    // A seed that only reproduces sometimes would make every failure useless.
    for seed in [0u64, 1, 42, 9999] {
        assert_eq!(program(seed), program(seed));
    }
    assert_ne!(program(1), program(2));
}

#[test]
fn a_program_names_its_seed_and_ends_with_a_print() {
    let src = program(42);
    assert!(src.starts_with("-- generated from seed 42\n"), "{src}");
    assert!(src.ends_with("print[\"end\" \\n] end\n"), "{src}");
}

#[test]
fn the_default_limits_are_the_ones_program_uses() {
    let config = Config::default();
    assert_eq!((config.max_stmts, config.max_depth, config.max_block_stmts), (12, 3, 3));
    for seed in [3u64, 17, 123456] {
        assert_eq!(program_with(seed, &config), program(seed));
    }
}

#[test]
fn one_statement_at_most_is_generated_when_so_limited() {
    let config = Config { max_stmts: 1, max_depth: 0, max_block_stmts: 1 };
    let src = program_with(5, &config);
    let body: Vec<&str> = src.lines().skip(1).collect();
    // One statement, then the closing print.
    assert!(body.len() >= 2, "{src}");
    assert_eq!(body.last(), Some(&"print[\"end\" \\n] end"));
}

#[test]
fn different_seeds_mostly_differ() {
    let texts: Vec<String> = (0..20u64).map(program).collect();
    let mut distinct = texts.clone();
    distinct.sort();
    distinct.dedup();
    assert!(distinct.len() > 15, "only {} distinct programs", distinct.len());
}

#[test]
fn shrinking_reduces_a_compiling_program() {
    // Shrink towards any program still printing, as a stand-in for a real
    // failure predicate.
    let src = "var i32 (a) = '1' end\nvar i32 (b) = '2' end\nprint[(a)] end\nset (b) = (b) + '1' end\n";
    let smaller = shrink(src, |c| c.contains("print") && compiles(c));
    assert_eq!(smaller, "var i32 (a) = '1' end\nprint[(a)] end");
    assert!(compiles(&smaller));
}

#[test]
fn shrinking_keeps_lines_in_order() {
    let src = "a\r\nb\nc\nd\n";
    let smaller = shrink(src, |c| c.contains('b') && c.contains('d'));
    assert_eq!(smaller, "b\nd");
}

#[test]
fn shrinking_gives_the_whole_program_back_when_nothing_smaller_fails() {
    assert_eq!(shrink("x\ny", |_| false), "x\ny");
    assert_eq!(shrink("x\r\ny\n", |_| false), "x\ny");
}

#[test]
fn every_generated_program_compiles() {
    // The generator has to obey the language's rules by construction.
    for seed in 0..2_000u64 {
        let src = program(seed);
        assert!(compiles(&src), "seed {seed} generated a program that will not compile:\n{src}");
    }
}

#[test]
fn shrinking_reduces_a_program() {
    // Shrink towards any program still containing a `print`, as a stand-in for
    // a real failure predicate.
    let src = program(7);
    let smaller = shrink(&src, |c| c.contains("print") && compiles(c));
    assert!(smaller.len() < src.len(), "shrinking should remove something");
    assert!(compiles(&smaller));
}
