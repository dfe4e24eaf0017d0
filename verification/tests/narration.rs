use infinite_worlds::narrator::{Narrator, NarratorError};
use infinite_worlds::phase::Phase;
use infinite_worlds::stream::noise_seed;
use rand::RngCore;
use rand_pcg::Pcg64Mcg;

#[test]
fn parser_rejects_bad_input() {
    assert!(Narrator::from_str("[nope]\nline\n").is_err());
    assert!(Narrator::from_str("orphan line\n").is_err());
    assert!(Narrator::from_str("[crust]\nonly crust\n").is_err());
}

#[test]
fn parser_skips_comments_and_blanks() {
    let text = "# header\n\n[crust]\n a \n# note\n[drift]\nb\n[refine]\nc\n[recent]\nd\n[generic]\ne\n";
    let n = Narrator::from_str(text).unwrap();
    assert_eq!(n.section("crust").unwrap(), ["a".to_string()]);
    assert_eq!(n.section("generic").unwrap(), ["e".to_string()]);
    assert!(n.section("nope").is_none());
}

#[test]
fn blanks_comments_and_padding_change_nothing() {
    let plain = "[crust]\na\n[drift]\nb c\n[refine]\nc\n[recent]\nd\n[generic]\ne\n";
    let dressed = "#x\n\t[crust]  \n\n  a\t\n   # [nope]\n[ drift ]\r\nb c\n[refine]\nc\n[recent]\nd\n[generic]\n\te\n#";
    let a = Narrator::from_str(plain).unwrap();
    let b = Narrator::from_str(dressed).unwrap();
    for name in ["crust", "drift", "refine", "recent", "generic"] {
        assert_eq!(a.section(name).unwrap(), b.section(name).unwrap());
    }
    assert!(Narrator::from_str("[crust]\na\n").is_err());
    assert!(Narrator::from_str("\n# note\n [crust]\n a \n\n").is_err());
}

#[test]
fn flaws_of_a_pool_are_named_with_their_line() {
    match Narrator::from_str("[crust]\na\n[nope]\nline\n") {
        Err(NarratorError::UnknownSection { name, line }) => {
            assert_eq!(name, "nope");
            assert_eq!(line, 3);
        }
        _ => panic!("an unknown section was accepted"),
    }
    match Narrator::from_str("\norphan line\n") {
        Err(NarratorError::Orphan { line }) => assert_eq!(line, 2),
        _ => panic!("an orphan was accepted"),
    }
    match Narrator::from_str("[crust]\nonly crust\n") {
        Err(NarratorError::EmptySection { section }) => assert_eq!(section, 1),
        _ => panic!("an empty section was accepted"),
    }
}

#[test]
fn a_picked_line_comes_from_the_phase_or_the_generic_pool() {
    let text = "[crust]\na\n[drift]\nb\nbb\n[refine]\nc\n[recent]\nd\n[generic]\ne\nf\n";
    let n = Narrator::from_str(text).unwrap();
    assert_eq!(n.phase_lines(Phase::Drift), ["b".to_string(), "bb".to_string()]);
    assert_eq!(n.generic_lines(), ["e".to_string(), "f".to_string()]);
    let picked: Vec<&str> = (0..8).map(|i| n.line_by(Phase::Drift, i)).collect();
    assert!(picked.iter().all(|l| ["b", "bb", "e", "f"].contains(l)));
    // The same draw picks the same line.
    let again: Vec<&str> = (0..8).map(|i| n.line_by(Phase::Drift, i)).collect();
    assert_eq!(picked, again);
    assert_eq!(picked, ["b", "bb", "e", "f", "b", "bb", "e", "f"]);
}

#[test]
fn a_stream_picks_lines_by_its_first_word() {
    let text = "[crust]\na\n[drift]\nb\nbb\n[refine]\nc\n[recent]\nd\n[generic]\ne\nf\n";
    let n = Narrator::from_str(text).unwrap();
    let picks = |k: u128| -> Vec<&str> {
        (0..40u128)
            .map(|i| n.line(Phase::Drift, k.wrapping_mul(0x9e37_79b9_7f4a_7c15_f39c_c060_5ced_c835) ^ (i << 64)))
            .collect()
    };
    assert_eq!(picks(1), picks(1));
    assert_ne!(picks(1), picks(2));
    for state in [0u128, 1, 0xcafe_f00d_d15e_a5e5, u128::MAX] {
        let word = Pcg64Mcg::new(state).next_u64();
        assert_eq!(noise_seed(state), word);
        assert_eq!(n.line(Phase::Drift, state), n.line_by(Phase::Drift, word));
    }
    assert_eq!(noise_seed(42), 0x63b4_a3a8_13ce_700a);
    assert_eq!(noise_seed(43), 0x63b4_a3a8_13ce_700a);
    // The word is a mixture of the state, not the state itself.
    assert_ne!(noise_seed(12345), 12345);
}
