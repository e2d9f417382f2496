//! Differential testing against the `toml` crate: both parsers must agree on
//! what to accept, and on the value they produce, canonicalized so that key
//! order and map type cannot matter.


/// Renders one of this crate's values so that equal documents render alike.
fn canonical_mine(value: &tomlproc::Value, out: &mut String) {
    match value {
        tomlproc::Value::String(s) => out.push_str(&format!("s{s:?}")),
        tomlproc::Value::Integer(i) => out.push_str(&format!("i{i}")),
        tomlproc::Value::Float(f) => {
            let text: String = f.as_str().chars().filter(|c| *c != '_').collect();
            let x: f64 = text.parse().expect("a float literal");
            out.push_str(&format!("f{x:?}"))
        }
        tomlproc::Value::Boolean(b) => out.push_str(&format!("b{b}")),
        tomlproc::Value::Datetime(d) => out.push_str(&format!("d{}", d.to_string())),
        tomlproc::Value::Array(items) => {
            out.push('[');
            for item in items {
                canonical_mine(item, out);
                out.push(',');
            }
            out.push(']');
        }
        tomlproc::Value::Table(table) => {
            let mut entries: Vec<(String, String)> = table
                .iter()
                .into_iter()
                .map(|(key, value)| {
                    let mut rendered = String::new();
                    canonical_mine(value, &mut rendered);
                    (key.to_string(), rendered)
                })
                .collect();
            entries.sort();
            out.push('{');
            for (key, rendered) in entries {
                out.push_str(&format!("{key:?}={rendered},"));
            }
            out.push('}');
        }
    }
}

/// Renders one of the reference crate's values the same way.
fn canonical_reference(value: &toml::Value, out: &mut String) {
    match value {
        toml::Value::String(s) => out.push_str(&format!("s{s:?}")),
        toml::Value::Integer(i) => out.push_str(&format!("i{i}")),
        toml::Value::Float(f) => out.push_str(&format!("f{f:?}")),
        toml::Value::Boolean(b) => out.push_str(&format!("b{b}")),
        toml::Value::Datetime(d) => out.push_str(&format!("d{d}")),
        toml::Value::Array(items) => {
            out.push('[');
            for item in items {
                canonical_reference(item, out);
                out.push(',');
            }
            out.push(']');
        }
        toml::Value::Table(table) => {
            let mut entries: Vec<(String, String)> = table
                .iter()
                .map(|(key, value)| {
                    let mut rendered = String::new();
                    canonical_reference(value, &mut rendered);
                    (key.to_string(), rendered)
                })
                .collect();
            entries.sort();
            out.push('{');
            for (key, rendered) in entries {
                out.push_str(&format!("{key:?}={rendered},"));
            }
            out.push('}');
        }
    }
}

/// Where the two parsers part ways on `input`, if they do.
fn disagreement(input: &str) -> Option<String> {
    match (tomlproc::parse(input), input.parse::<toml::Table>()) {
        (Ok(mine), Ok(reference)) => {
            let (mut a, mut b) = (String::new(), String::new());
            canonical_mine(&tomlproc::Value::Table(mine), &mut a);
            canonical_reference(&toml::Value::Table(reference), &mut b);
            if a == b {
                None
            } else {
                Some(format!("mine:      {a}\n  reference: {b}"))
            }
        }
        (Err(_), Err(_)) => None,
        (Ok(_), Err(error)) => Some(format!("the reference rejects it: {error}")),
        (Err(error), Ok(_)) => Some(format!("tomlproc rejects it: {error:?}")),
    }
}

/// xorshift64*, so a disagreement reproduces from its seed alone.
struct Rng(u64);

impl Rng {
    fn next(&mut self) -> u64 {
        self.0 ^= self.0 >> 12;
        self.0 ^= self.0 << 25;
        self.0 ^= self.0 >> 27;
        self.0.wrapping_mul(0x2545_F491_4F6C_DD1D)
    }

    fn below(&mut self, bound: usize) -> usize {
        (self.next() % bound as u64) as usize
    }

    fn pick(&mut self, choices: &[&'static str]) -> &'static str {
        choices[self.below(choices.len())]
    }
}

/// Fragments that land on the parser's decision points.
const PIECES: &[&str] = &[
    "a", "b.c", "\"q\"", "'l'", "=", " ", "\t", "\n", "\r\n", "#c", ".", ",", "[", "]", "[[", "]]",
    "{", "}", "\"", "'", "\"\"\"", "'''", "\\", "\\u00e9", "\\q", "1", "0x1", "0b1", "1_0", "01",
    "1.", ".5", "1e", "1e5", "1e501", "+", "-", "inf", "nan", "true", "false", "1979-05-27",
    "07:32:00", "1979-05-27T07:32:00Z", "1979-05-27 07:32:00", "é", "9223372036854775808",
    "x = ", "[t]", "[[t]]", "a=1", "a=[", "{a=1}", "\"\"", "''", "0", "00:00:00.9999999999",
    "-0", "+0",
];

/// Whole statements, which is where the table-definition rules live.
const STATEMENTS: &[&str] = &[
    "[a]", "[a.b]", "[a.b.c]", "[[a]]", "[[a.b]]", "[b]", "[\"a\"]", "[a.\"b\"]", "a = 1",
    "a.b = 1", "a.b.c = 1", "b = 2", "b.c = 3", "a = {}", "a = { b = 1 }", "a = { b.c = 1 }",
    "a = []", "a = [{}]", "a = [1]", "c = 1", "a.b = {}", "", "# comment", "[a.b.d]", "d = 1",
    "[[a.b.c]]", "a = { b = { c = 1 } }",
];

const ROUNDS: usize = 20_000;

fn check_all(inputs: impl Iterator<Item = String>) {
    let mut reported = Vec::new();
    for input in inputs {
        if let Some(detail) = disagreement(&input) {
            reported.push(format!("input: {input:?}\n  {detail}"));
        }
    }
    assert!(reported.is_empty(), "{} disagreements, first: {}", reported.len(), reported[0]);
}

#[test]
fn fragments_parse_as_the_reference_parses_them() {
    let mut rng = Rng(0xA11C_E5EE_D000_0001);
    check_all((0..ROUNDS).map(|_| {
        let mut input = String::new();
        for _ in 0..rng.below(14) {
            input.push_str(rng.pick(PIECES));
        }
        input
    }));
}

#[test]
fn statements_parse_as_the_reference_parses_them() {
    let mut rng = Rng(0xDEC0_DE12_3400_0001);
    check_all((0..ROUNDS).map(|_| {
        let mut input = String::new();
        for _ in 0..rng.below(7) {
            input.push_str(rng.pick(STATEMENTS));
            input.push('\n');
        }
        input
    }));
}
