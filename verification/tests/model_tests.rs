use quackulator::model::{read_weights, NF};

fn list(n: usize, base: usize) -> String {
    (0..n).map(|i| format!("{}.5", base + i)).collect::<Vec<_>>().join(", ")
}

fn weights(win: bool, gains: usize, rounds: usize, per_round: usize) -> String {
    let mut s = String::from(if win { "{\n  \"format\": \"quackulator-win-v2\",\n" } else { "{\n  \"format\": \"quackulator-value-v1\",\n" });
    s += "  \"games\": 10,\n";
    if win {
        s += &format!("  \"opp_gain\": [{}],\n", list(gains, 0));
    }
    s += "  \"features\": [\"const\", \"W1\"],\n  \"rounds\": [\n";
    for r in 0..rounds {
        s += &format!("    [{}]{}\n", list(per_round, 100 * r), if r + 1 == rounds { "" } else { "," });
    }
    s += "  ]\n}\n";
    s
}

fn text(t: &Vec<char>) -> String {
    t.iter().collect()
}

#[test]
fn reads_a_value_model() {
    let w = read_weights(&weights(false, 0, 9, NF)).unwrap();
    assert!(!w.win);
    assert!(w.opp_gain.is_empty());
    assert_eq!(w.rounds.len(), 9);
    assert!(w.rounds.iter().all(|r| r.len() == NF));
    assert_eq!(text(&w.rounds[0][0]), "0.5");
    assert_eq!(text(&w.rounds[8][45]), "845.5");
    // an older value model without the margin coefficient
    let old = read_weights(&weights(false, 0, 9, NF - 1)).unwrap();
    assert_eq!(old.rounds[3].len(), NF - 1);
}

#[test]
fn reads_a_win_model() {
    let w = read_weights(&weights(true, 9, 10, NF)).unwrap();
    assert!(w.win);
    assert_eq!(w.opp_gain.len(), 9);
    assert_eq!(text(&w.opp_gain[2]), "2.5");
    assert_eq!(w.rounds.len(), 10);
    assert_eq!(text(&w.rounds[9][1]), "901.5");
}

#[test]
fn rejects_bad_layouts() {
    // a win model needs its 10th round, all coefficients, and at most 9 gains
    assert!(read_weights(&weights(true, 9, 9, NF)).is_none());
    assert!(read_weights(&weights(true, 9, 10, NF - 1)).is_none());
    assert!(read_weights(&weights(true, 10, 10, NF)).is_none());
    assert!(read_weights(&weights(false, 0, 9, NF + 1)).is_none());
    assert!(read_weights(&weights(false, 0, 8, NF)).is_none());
    assert!(read_weights("{ \"format\": \"quackulator-value-v1\" }").is_none());
    let no_gain = weights(true, 9, 10, NF).replace("\"opp_gain\"", "\"gain\"");
    assert!(read_weights(&no_gain).is_none());
}

#[test]
fn items_are_trimmed() {
    let s = weights(false, 0, 9, NF).replace("0.5, 1.5", "  0.5 ,\t1.5");
    let w = read_weights(&s).unwrap();
    assert_eq!(text(&w.rounds[0][0]), "0.5");
    assert_eq!(text(&w.rounds[0][1]), "1.5");
}
