use ghostwriter::cursive::text::normalize;

#[test]
fn substitutes_lowercase_oe_ligature() {
    assert_eq!(normalize("cœur"), "coeur");
}

#[test]
fn substitutes_uppercase_oe_ligature() {
    assert_eq!(normalize("ŒUF"), "OEUF");
}

#[test]
fn leaves_accented_characters_untouched() {
    assert_eq!(normalize("Où étais-tu ?"), "Où étais-tu ?");
}

#[test]
fn leaves_plain_ascii_untouched() {
    assert_eq!(normalize("Hello, world!"), "Hello, world!");
}

#[test]
fn substitutes_typographic_punctuation() {
    assert_eq!(normalize("but—c'est"), "but-c'est");
    assert_eq!(normalize("l\u{2019}été"), "l'été");
    assert_eq!(normalize("\u{201C}oui\u{201D}"), "\"oui\"");
    assert_eq!(normalize("Eh bien…"), "Eh bien...");
}

#[test]
fn substitutes_every_dash_and_opening_quote() {
    assert_eq!(normalize("a—b–c−d-e"), "a-b-c-d-e");
    assert_eq!(normalize("\u{2018}x\u{2019}"), "'x'");
}

#[test]
fn normalizes_empty_text() {
    assert_eq!(normalize(""), "");
}

#[test]
fn normalizing_twice_is_normalizing_once() {
    let once = normalize("Œuvre — « cœur »… \u{201C}漢字\u{201D}");
    assert_eq!(once, "OEuvre - « coeur »... \"漢字\"");
    assert_eq!(normalize(&once), once);
}

#[test]
fn normalizes_piece_by_piece() {
    let whole = normalize("cœur—…");
    assert_eq!(whole, normalize("cœu") + &normalize("r—…"));
}

#[test]
fn leaves_all_of_latin1_untouched() {
    let mut text = String::new();
    for c in '\u{0}'..='\u{ff}' {
        text.push(c);
    }
    assert_eq!(normalize(&text), text);
}
