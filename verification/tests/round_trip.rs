use oxidizer::batch::deobfuscator::BatchDeobfuscator;
use oxidizer::batch::obfuscator::BatchObfuscator;
use oxidizer::batch::BatchError;

fn encode(src: &str) -> BatchObfuscator {
    let mut obfuscator = BatchObfuscator::new();
    assert_eq!(obfuscator.initialize(None, None, src.to_string()), Ok(()));
    obfuscator
}

fn decode(text: &str) -> String {
    let mut deobfuscator = BatchDeobfuscator::new();
    assert_eq!(deobfuscator.initialize(text.to_string()), Ok(()));
    deobfuscator.cleaned_code
}

fn name_of(obfuscator: &BatchObfuscator, c: char) -> String {
    let mut found = None;
    for (key, name) in obfuscator.alphabet.iter() {
        if *key == c {
            assert!(found.is_none());
            found = Some(name.clone());
        }
    }
    found.unwrap()
}

#[test]
fn two_letters_are_defined_referenced_and_recovered() {
    let obfuscator = encode("hi");
    let h = name_of(&obfuscator, 'h');
    let i = name_of(&obfuscator, 'i');
    let lines: Vec<&str> = obfuscator.obfuscated_code.split('\n').collect();
    let set = &obfuscator.set_str;
    let space = &obfuscator.space_str;
    let eq = &obfuscator.eq_str;
    assert_eq!(lines[2], format!("set {}=set", set));
    assert_eq!(lines[3], format!("%{}% {}= ", set, space));
    assert_eq!(lines[4], format!("%{}%%{}%{}==", set, space, eq));
    assert!(lines.contains(&format!("%{}%%{}%{}%{}%h", set, space, h, eq).as_str()));
    assert!(lines.contains(&format!("%{}%%{}%{}%{}%i", set, space, i, eq).as_str()));
    assert!(lines.contains(&format!("%{}%%{}%", h, i).as_str()));
    assert_eq!(decode(&obfuscator.obfuscated_code), "hi");
}

#[test]
fn empty_source_round_trips() {
    let obfuscator = encode("");
    assert_eq!(obfuscator.exec_commands, vec!["\n".to_string()]);
    assert_eq!(decode(&obfuscator.obfuscated_code), "");
}

#[test]
fn missing_space_statement_is_refused() {
    let obfuscator = encode("hi");
    let kept: Vec<&str> = obfuscator
        .obfuscated_code
        .split('\n')
        .enumerate()
        .filter(|(n, _)| *n != 3)
        .map(|(_, line)| line)
        .collect();
    let mut deobfuscator = BatchDeobfuscator::new();
    assert_eq!(
        deobfuscator.initialize(kept.join("\n")),
        Err(BatchError::AnchorNotFound)
    );
    assert!(!deobfuscator.initialized);
    assert_eq!(deobfuscator.cleaned_code, "");
}
