use wordlist_gen::normalize::{canonicalize, key, normalize};

#[test]
fn normalize_collapses_separators() {
    assert_eq!(normalize("Crouching Tiger / Hidden  Dragon"), "CROUCHING TIGER HIDDEN DRAGON");
}

#[test]
fn normalize_ampersand() {
    assert_eq!(normalize("AT&T"), "AT AND T");
}

#[test]
fn normalize_transliterates() {
    assert_eq!(normalize("Spın̈al Tap"), "SPINAL TAP");
    assert_eq!(normalize("Æneid"), "AENEID");
    assert_eq!(normalize("étude"), "ETUDE");
}

#[test]
fn normalize_edges() {
    assert_eq!(normalize(""), "");
    assert_eq!(normalize("  --/ "), "");
    assert_eq!(normalize("- Star-Wars -"), "STAR WARS");
    assert_eq!(normalize("&"), "AND");
    assert_eq!(normalize("Tom & Jerry"), "TOM AND JERRY");
    assert_eq!(normalize("Rock&Roll"), "ROCK AND ROLL");
    assert_eq!(normalize("Se7en!"), "SE7EN");
    assert_eq!(normalize("a\tb\nc\x0Bd"), "A B C D");
}

#[test]
fn canonicalize_ascii() {
    assert_eq!(canonicalize("the  matrix: reloaded"), "THE MATRIX RELOADED");
    assert_eq!(canonicalize("x & "), "X AND");
    assert_eq!(canonicalize("é"), "");
}

#[test]
fn normalize_is_idempotent() {
    for s in ["Crouching Tiger / Hidden  Dragon", "AT&T", "Spın̈al Tap", "  x--y  ", "北亰"] {
        let once = normalize(s);
        assert_eq!(normalize(&once), once);
    }
}

#[test]
fn key_keeps_letters() {
    assert_eq!(key("Hello, World 2!"), b"helloworld".to_vec());
    assert_eq!(key("AT AND T"), b"atandt".to_vec());
    assert_eq!(key("123 - 456"), Vec::<u8>::new());
    assert_eq!(key("Ébc"), b"bc".to_vec());
}

#[test]
fn key_invariant_under_normalize() {
    for s in ["Crouching Tiger / Hidden  Dragon", "Se7en", "the-end/", "  a b  c "] {
        assert_eq!(key(s), key(&normalize(s)));
    }
}
